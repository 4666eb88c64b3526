//! Whether a game is up to date, and how much an update takes.

use vstd::prelude::*;
use crate::collections::add_name;
use crate::collections::has_name;
use crate::collections::names;
use crate::collections::new_name_set;
use crate::collections::text_at;
use crate::collections::texts;
use crate::collections::value_at;
use crate::collections::NameSet;
use crate::proto_parse::asset_views;
use crate::proto_parse::chunk_views;
use crate::proto_parse::AssetView;
use crate::proto_parse::ChunkView;
use crate::proto_parse::SophonManifestProto;
use crate::text::text_of;
use super::api::manifest_qualifies;
use super::api::parse_size;
use super::api::qualifies;
use super::api::stated_size;
use super::chunk_reuse::build_old_md5_map;
use super::chunk_reuse::md5s_below;
use super::error::ErrorView;
use super::error::SophonError;
use super::error::SophonResult;
use super::flow::marker_file_name;
use super::flow::marker_name;

verus! {

/// The state of a game against what is on offer.
#[derive(Debug)]
pub struct UpdateInfo {
    pub update_available: bool,
    pub preinstall_available: bool,
    pub preinstall_downloaded: bool,
    pub current_tag: Option<String>,
    pub remote_tag: String,
    pub preinstall_tag: Option<String>,
    pub update_compressed_size: u64,
    pub update_decompressed_size: u64,
    pub preinstall_compressed_size: u64,
    pub preinstall_decompressed_size: u64,
}

/// What the state of a game says.
pub ghost struct UpdateInfoView {
    pub update_available: bool,
    pub preinstall_available: bool,
    pub preinstall_downloaded: bool,
    pub current_tag: Option<Seq<char>>,
    pub remote_tag: Seq<char>,
    pub preinstall_tag: Option<Seq<char>>,
    pub update_sizes: (u64, u64),
    pub preinstall_sizes: (u64, u64),
}

impl View for UpdateInfo {
    type V = UpdateInfoView;

    open spec fn view(&self) -> UpdateInfoView {
        UpdateInfoView {
            update_available: self.update_available,
            preinstall_available: self.preinstall_available,
            preinstall_downloaded: self.preinstall_downloaded,
            current_tag: text_of(self.current_tag),
            remote_tag: self.remote_tag@,
            preinstall_tag: text_of(self.preinstall_tag),
            update_sizes: (self.update_compressed_size, self.update_decompressed_size),
            preinstall_sizes: (
                self.preinstall_compressed_size,
                self.preinstall_decompressed_size,
            ),
        }
    }
}

/// An update is available: a version is installed, and it is not the one on offer.
pub open spec fn outdated(current: Option<Seq<char>>, remote: Seq<char>) -> bool {
    current is Some && current != Some(remote)
}

/// Whether an update is available.
pub fn update_available(current_tag: &Option<String>, remote_tag: &str) -> (r: bool)
    ensures
        r == outdated(text_of(*current_tag), remote_tag@),
{
    match current_tag {
        Some(t) => *t.as_str() != *remote_tag,
        None => false,
    }
}

/// The version for which a preinstallation is looked for on disk: the one that is
/// offered for preinstallation, or else the one that an update would bring.
pub open spec fn preinstall_version(
    current: Option<Seq<char>>,
    remote: Seq<char>,
    offered: Option<Seq<char>>,
) -> Option<Seq<char>> {
    match offered {
        Some(t) => Some(t),
        None => if outdated(current, remote) {
            Some(remote)
        } else {
            None
        },
    }
}

/// The version for which a preinstallation is looked for on disk.
pub fn preinstall_version_of(
    current_tag: &Option<String>,
    remote_tag: &str,
    offered: &Option<String>,
) -> (r: Option<String>)
    ensures
        text_of(r) == preinstall_version(text_of(*current_tag), remote_tag@, text_of(*offered)),
{
    match offered {
        Some(t) => Some(t.clone()),
        None => if update_available(current_tag, remote_tag) {
            Some(remote_tag.to_owned())
        } else {
            None
        },
    }
}

/// The name of the file that holds the state of a preinstallation.
pub open spec fn state_name(tag: Seq<char>) -> Seq<char> {
    marker_name(tag) + ".json"@
}

/// The name of the file that holds the state of a preinstallation.
pub fn state_file_name(tag: &str) -> (r: String)
    ensures
        r@ == state_name(tag@),
{
    let mut out = marker_file_name(tag);
    out.append(".json");
    out
}

/// The state of a game: without an update its sizes are zero, and so are those of
/// a preinstallation that cannot be told.
pub open spec fn update_state(
    current: Option<Seq<char>>,
    remote: Seq<char>,
    offered: Option<Seq<char>>,
    update_sizes: (u64, u64),
    offered_sizes: Option<(u64, u64)>,
    found: bool,
) -> UpdateInfoView {
    let looked_for = preinstall_version(current, remote, offered);
    let available = outdated(current, remote);
    UpdateInfoView {
        update_available: available,
        preinstall_available: offered is Some,
        preinstall_downloaded: looked_for is Some && found,
        current_tag: current,
        remote_tag: remote,
        preinstall_tag: if offered is Some {
            offered
        } else if available && found {
            Some(remote)
        } else {
            None
        },
        update_sizes: if available {
            update_sizes
        } else {
            (0, 0)
        },
        preinstall_sizes: match (offered, offered_sizes) {
            (Some(_), Some(s)) => s,
            _ => (0, 0),
        },
    }
}

/// Puts together the state of a game. `found` says whether the marker or the state
/// of the preinstallation that is looked for is on disk. Without an update its
/// sizes are zero, and so are those of a preinstallation that cannot be told.
pub fn check_update(
    current_tag: Option<String>,
    remote_tag: String,
    offered: Option<String>,
    update_sizes: (u64, u64),
    offered_sizes: Option<(u64, u64)>,
    found: bool,
) -> (r: UpdateInfo)
    ensures
        r@ == update_state(
            text_of(current_tag),
            remote_tag@,
            text_of(offered),
            update_sizes,
            offered_sizes,
            found,
        ),
{
    let available = update_available(&current_tag, remote_tag.as_str());
    let preinstall_available = offered.is_some();
    let downloaded = (preinstall_available || available) && found;
    let (update_cs, update_ds) = if available {
        update_sizes
    } else {
        (0u64, 0u64)
    };
    let (pre_cs, pre_ds) = match (&offered, offered_sizes) {
        (Some(_), Some(s)) => s,
        _ => (0u64, 0u64),
    };
    let preinstall_tag = match offered {
        Some(t) => Some(t),
        None => if available && found {
            Some(remote_tag.clone())
        } else {
            None
        },
    };
    UpdateInfo {
        update_available: available,
        preinstall_available,
        preinstall_downloaded: downloaded,
        current_tag,
        remote_tag,
        preinstall_tag,
        update_compressed_size: update_cs,
        update_decompressed_size: update_ds,
        preinstall_compressed_size: pre_cs,
        preinstall_decompressed_size: pre_ds,
    }
}

/// A game whose installed version is the one on offer is up to date, and so is one
/// that is not installed.
pub proof fn law_same_version_is_up_to_date(current: Option<Seq<char>>, remote: Seq<char>)
    ensures
        !outdated(None, remote),
        !outdated(Some(remote), remote),
        current is Some && current->0 != remote ==> outdated(current, remote),
{
}

/// The sizes that a manifest states, as texts.
pub struct StatedSizes {
    pub matching_field: String,
    pub compressed: String,
    pub uncompressed: String,
}

/// What stated sizes say: the field, and both sizes.
pub open spec fn sizes_view(v: Seq<StatedSizes>) -> Seq<(Seq<char>, Seq<char>, Seq<char>)> {
    v.map_values(|s: StatedSizes| (s.matching_field@, s.compressed@, s.uncompressed@))
}

/// The error for a size that is no number.
pub open spec fn no_size() -> ErrorView {
    ErrorView::ApiError(0, "size is not a decimal number"@)
}

/// The error for sizes that are too large.
pub open spec fn too_large() -> ErrorView {
    ErrorView::ApiError(0, "sizes do not fit 64 bits"@)
}

/// The sizes of those of the first `n` manifests that belong to an installation,
/// or what is wrong with the first that cannot be added.
pub open spec fn sizes_below(
    v: Seq<(Seq<char>, Seq<char>, Seq<char>)>,
    lang: Seq<char>,
    n: int,
) -> Result<(u64, u64), ErrorView>
    decreases n,
{
    if n <= 0 {
        Ok((0, 0))
    } else {
        match sizes_below(v, lang, n - 1) {
            Err(e) => Err(e),
            Ok((c, d)) => {
                let (field, compressed, uncompressed) = v[n - 1];
                if !qualifies(field, lang) {
                    Ok((c, d))
                } else {
                    match (stated_size(compressed), stated_size(uncompressed)) {
                        (Some(x), Some(y)) => if c + x > u64::MAX || d + y > u64::MAX {
                            Err(too_large())
                        } else {
                            Ok(((c + x) as u64, (d + y) as u64))
                        },
                        _ => Err(no_size()),
                    }
                }
            },
        }
    }
}

/// One of the first `n` manifests belongs to an installation.
pub open spec fn any_qualifies(
    v: Seq<(Seq<char>, Seq<char>, Seq<char>)>,
    lang: Seq<char>,
    n: int,
) -> bool {
    exists|i: int| 0 <= i < n && qualifies((#[trigger] v[i]).0, lang)
}

/// The sizes of a build. It is an error when no manifest belongs to the
/// installation, when a size is no number, and when the sizes do not fit 64 bits.
pub fn fetch_build_sizes(sizes: &Vec<StatedSizes>, vo_lang: &str) -> (r: SophonResult<(u64, u64)>)
    ensures
        ({
            let v = sizes_view(sizes@);
            let n = sizes@.len() as int;
            if !any_qualifies(v, vo_lang@, n) {
                r matches Err(e) && e@ == ErrorView::NoGameManifest
            } else {
                match sizes_below(v, vo_lang@, n) {
                    Ok(s) => r matches Ok(t) && t == s,
                    Err(e) => r matches Err(f) && f@ == e,
                }
            }
        }),
{
    let ghost v = sizes_view(sizes@);
    let ghost lang = vo_lang@;
    let n: usize = sizes.len();
    let mut any = false;
    let mut k: usize = 0;
    while k < n
        invariant
            k <= n,
            n == sizes@.len(),
            v == sizes_view(sizes@),
            lang == vo_lang@,
            any == any_qualifies(v, lang, k as int),
        decreases n - k,
    {
        assert(v[k as int].0 == sizes@[k as int].matching_field@);
        if manifest_qualifies(sizes[k].matching_field.as_str(), vo_lang) {
            any = true;
            assert(qualifies(v[k as int].0, lang));
        }
        k += 1;
    }
    if !any {
        return Err(SophonError::NoGameManifest);
    }
    let mut cs: u64 = 0;
    let mut ds: u64 = 0;
    let mut i: usize = 0;
    while i < n
        invariant
            i <= n,
            n == sizes@.len(),
            v == sizes_view(sizes@),
            lang == vo_lang@,
            any_qualifies(v, lang, n as int),
            sizes_below(v, lang, i as int) == Ok::<(u64, u64), ErrorView>((cs, ds)),
        decreases n - i,
    {
        let s = &sizes[i];
        assert(v[i as int] == (s.matching_field@, s.compressed@, s.uncompressed@));
        if manifest_qualifies(s.matching_field.as_str(), vo_lang) {
            let c: u64 = match parse_size(s.compressed.as_str()) {
                Ok(x) => x,
                Err(e) => {
                    proof {
                        lemma_sizes_stay(v, lang, i as int + 1, n as int);
                    }
                    return Err(e);
                },
            };
            let d: u64 = match parse_size(s.uncompressed.as_str()) {
                Ok(x) => x,
                Err(e) => {
                    proof {
                        lemma_sizes_stay(v, lang, i as int + 1, n as int);
                    }
                    return Err(e);
                },
            };
            match (cs.checked_add(c), ds.checked_add(d)) {
                (Some(x), Some(y)) => {
                    cs = x;
                    ds = y;
                },
                _ => {
                    proof {
                        lemma_sizes_stay(v, lang, i as int + 1, n as int);
                    }
                    return Err(
                        SophonError::ApiError(0, "sizes do not fit 64 bits".to_owned()),
                    );
                },
            }
        }
        i += 1;
    }
    Ok((cs, ds))
}

/// An error stays.
proof fn lemma_sizes_stay(v: Seq<(Seq<char>, Seq<char>, Seq<char>)>, lang: Seq<char>, i: int, n: int)
    requires
        0 <= i <= n,
        sizes_below(v, lang, i) is Err,
    ensures
        sizes_below(v, lang, n) == sizes_below(v, lang, i),
    decreases n,
{
    if i < n {
        lemma_sizes_stay(v, lang, i, n - 1);
    }
}

/// The checksums of the contents among `s`.
pub open spec fn content_names(s: Seq<ChunkView>) -> Set<Seq<char>>
    decreases s.len(),
{
    if s.len() == 0 {
        Set::empty()
    } else {
        content_names(s.drop_last()).insert(s.last().decompressed_md5)
    }
}

/// The chunks of the files among the first `n` assets.
pub open spec fn file_chunks(assets: Seq<AssetView>, n: int) -> Seq<ChunkView>
    decreases n,
{
    if n <= 0 {
        Seq::empty()
    } else if assets[n - 1].is_directory() {
        file_chunks(assets, n - 1)
    } else {
        file_chunks(assets, n - 1) + assets[n - 1].chunks
    }
}

/// The sizes counted so far, and the names of the chunks that were counted.
pub ghost struct DiffSizes {
    pub compressed: int,
    pub decompressed: int,
    pub seen: Set<Seq<char>>,
}

/// `s` with a chunk, unless the old files hold its content or it was counted.
pub open spec fn with_size(s: DiffSizes, c: ChunkView, held: Set<Seq<char>>) -> DiffSizes {
    if held.contains(c.decompressed_md5) || s.seen.contains(c.name) {
        s
    } else {
        DiffSizes {
            compressed: s.compressed + c.size,
            decompressed: s.decompressed + c.size_decompressed,
            seen: s.seen.insert(c.name),
        }
    }
}

/// `s` with the first `k` chunks of a file.
pub open spec fn with_chunk_sizes(
    s: DiffSizes,
    chunks: Seq<ChunkView>,
    held: Set<Seq<char>>,
    k: int,
) -> DiffSizes
    decreases k,
{
    if k <= 0 {
        s
    } else {
        with_size(with_chunk_sizes(s, chunks, held, k - 1), chunks[k - 1], held)
    }
}

/// A file of the new manifest is downloaded.
pub open spec fn file_needed(a: AssetView, old_md5: Map<Seq<char>, Seq<char>>) -> bool {
    !a.is_directory() && value_at(old_md5, a.name) != Some(a.md5)
}

/// `s` with the first `n` assets of a new manifest.
pub open spec fn with_asset_sizes(
    s: DiffSizes,
    new: Seq<AssetView>,
    old_md5: Map<Seq<char>, Seq<char>>,
    held: Set<Seq<char>>,
    n: int,
) -> DiffSizes
    decreases n,
{
    if n <= 0 {
        s
    } else {
        let t = with_asset_sizes(s, new, old_md5, held, n - 1);
        if file_needed(new[n - 1], old_md5) {
            with_chunk_sizes(t, new[n - 1].chunks, held, new[n - 1].chunks.len() as int)
        } else {
            t
        }
    }
}

/// A new manifest, and the one that is installed in its place, if there is one.
pub struct DiffPair {
    pub matching_field: String,
    pub new: SophonManifestProto,
    pub old: Option<SophonManifestProto>,
}

/// What a pair of manifests says.
pub ghost struct PairView {
    pub field: Seq<char>,
    pub new: Seq<AssetView>,
    pub old: Seq<AssetView>,
}

/// What each of some pairs says; no manifest is as good as an empty one.
pub open spec fn pair_views(v: Seq<DiffPair>) -> Seq<PairView> {
    v.map_values(
        |p: DiffPair|
            PairView {
                field: p.matching_field@,
                new: p.new@,
                old: match p.old {
                    Some(o) => o@,
                    None => Seq::empty(),
                },
            },
    )
}

/// The sizes of an update out of the first `n` pairs: the chunks of the files that
/// change, without those whose content the old files hold, each name once.
pub open spec fn diff_sizes(v: Seq<PairView>, lang: Seq<char>, n: int) -> DiffSizes
    decreases n,
{
    if n <= 0 {
        DiffSizes { compressed: 0, decompressed: 0, seen: Set::empty() }
    } else {
        let s = diff_sizes(v, lang, n - 1);
        let p = v[n - 1];
        if qualifies(p.field, lang) {
            with_asset_sizes(
                s,
                p.new,
                md5s_below(p.old, Set::empty(), p.old.len() as int),
                content_names(file_chunks(p.old, p.old.len() as int)),
                p.new.len() as int,
            )
        } else {
            s
        }
    }
}

/// The checksums of the contents that the files of a manifest hold.
fn held_contents(manifest: &SophonManifestProto) -> (r: NameSet)
    ensures
        names(r) == content_names(file_chunks(manifest@, manifest@.len() as int)),
{
    let ghost all = manifest@;
    let mut out = new_name_set();
    let mut f: usize = 0;
    while f < manifest.assets.len()
        invariant
            f <= manifest.assets@.len(),
            all == manifest@,
            names(out) == content_names(file_chunks(all, f as int)),
        decreases manifest.assets@.len() - f,
    {
        let a = &manifest.assets[f];
        assert(all[f as int] == a@);
        if !a.is_directory() {
            let ghost head = file_chunks(all, f as int);
            let list = &a.asset_chunks;
            let ghost chunks = a@.chunks;
            let mut c: usize = 0;
            assert(head + chunks.take(0) =~= head);
            while c < list.len()
                invariant
                    c <= list@.len(),
                    chunks == chunk_views(list@),
                    names(out) == content_names(head + chunks.take(c as int)),
                decreases list@.len() - c,
            {
                add_name(&mut out, list[c].chunk_decompressed_hash_md5.clone());
                proof {
                    let s = head + chunks.take(c as int + 1);
                    assert(s.drop_last() =~= head + chunks.take(c as int));
                    assert(s.last() == list@[c as int]@);
                }
                c += 1;
            }
            assert(head + chunks.take(chunks.len() as int) =~= head + chunks);
        }
        f += 1;
    }
    out
}

/// Counts with 64 bits, and remembers when that was not enough.
struct SizeCount {
    pub compressed: u64,
    pub decompressed: u64,
    pub overflow: bool,
    pub seen: NameSet,
}

impl SizeCount {
    spec fn shows(&self, s: DiffSizes) -> bool {
        &&& names(self.seen) == s.seen
        &&& 0 <= s.compressed && 0 <= s.decompressed
        &&& !self.overflow ==> self.compressed == s.compressed && self.decompressed
            == s.decompressed
        &&& self.overflow ==> s.compressed > u64::MAX || s.decompressed > u64::MAX
    }

    fn count(&mut self, size: u64, decompressed: u64, Ghost(s): Ghost<DiffSizes>)
        requires
            0 <= s.compressed,
            0 <= s.decompressed,
            !old(self).overflow ==> old(self).compressed == s.compressed && old(self).decompressed
                == s.decompressed,
            old(self).overflow ==> s.compressed > u64::MAX || s.decompressed > u64::MAX,
        ensures
            final(self).seen == old(self).seen,
            !final(self).overflow ==> final(self).compressed == s.compressed + size
                && final(self).decompressed == s.decompressed + decompressed,
            final(self).overflow ==> s.compressed + size > u64::MAX || s.decompressed + decompressed
                > u64::MAX,
    {
        if !self.overflow {
            match (
                self.compressed.checked_add(size),
                self.decompressed.checked_add(decompressed),
            ) {
                (Some(a), Some(b)) => {
                    self.compressed = a;
                    self.decompressed = b;
                },
                _ => {
                    self.overflow = true;
                },
            }
        }
    }
}

/// The compressed and the unpacked size of an update; nothing when one of them
/// does not fit 64 bits.
pub fn fetch_diff_sizes(pairs: &Vec<DiffPair>, vo_lang: &str) -> (r: Option<(u64, u64)>)
    ensures
        ({
            let s = diff_sizes(pair_views(pairs@), vo_lang@, pairs@.len() as int);
            match r {
                Some((c, d)) => c == s.compressed && d == s.decompressed,
                None => s.compressed > u64::MAX || s.decompressed > u64::MAX,
            }
        }),
{
    let ghost v = pair_views(pairs@);
    let mut sum = SizeCount {
        compressed: 0,
        decompressed: 0,
        overflow: false,
        seen: new_name_set(),
    };
    let mut i: usize = 0;
    while i < pairs.len()
        invariant
            i <= pairs@.len(),
            v == pair_views(pairs@),
            sum.shows(diff_sizes(v, vo_lang@, i as int)),
        decreases pairs@.len() - i,
    {
        let p = &pairs[i];
        let ghost pv = v[i as int];
        assert(pv.field == p.matching_field@ && pv.new == p.new@);
        if manifest_qualifies(p.matching_field.as_str(), vo_lang) {
            let empty = SophonManifestProto { assets: Vec::new() };
            assert(empty@ =~= Seq::<AssetView>::empty());
            let old: &SophonManifestProto = match &p.old {
                Some(o) => o,
                None => &empty,
            };
            assert(old@ == pv.old);
            let md5s = build_old_md5_map(old);
            let held = held_contents(old);
            let ghost start = diff_sizes(v, vo_lang@, i as int);
            let ghost m = texts(md5s);
            let ghost h = names(held);
            let assets = &p.new.assets;
            let ghost new = p.new@;
            let mut f: usize = 0;
            while f < assets.len()
                invariant
                    f <= assets@.len(),
                    new == asset_views(assets@),
                    m == texts(md5s),
                    h == names(held),
                    sum.shows(with_asset_sizes(start, new, m, h, f as int)),
                decreases assets@.len() - f,
            {
                let a = &assets[f];
                assert(new[f as int] == a@);
                let needed = !a.is_directory() && match text_at(&md5s, a.asset_name.as_str()) {
                    Some(x) => *x.as_str() != *a.asset_hash_md5.as_str(),
                    None => true,
                };
                assert(needed == file_needed(a@, m));
                if needed {
                    let ghost t = with_asset_sizes(start, new, m, h, f as int);
                    let list = &a.asset_chunks;
                    let ghost chunks = a@.chunks;
                    let mut c: usize = 0;
                    while c < list.len()
                        invariant
                            c <= list@.len(),
                            chunks == chunk_views(list@),
                            h == names(held),
                            sum.shows(with_chunk_sizes(t, chunks, h, c as int)),
                        decreases list@.len() - c,
                    {
                        let x = &list[c];
                        assert(chunks[c as int] == x@);
                        let ghost s = with_chunk_sizes(t, chunks, h, c as int);
                        let ghost had = names(sum.seen);
                        if !has_name(&held, x.chunk_decompressed_hash_md5.as_str()) {
                            if add_name(&mut sum.seen, x.chunk_name.clone()) {
                                sum.count(x.chunk_size, x.chunk_size_decompressed, Ghost(s));
                            } else {
                                assert(names(sum.seen) =~= had);
                            }
                        }
                        c += 1;
                    }
                }
                f += 1;
            }
        }
        i += 1;
    }
    if sum.overflow {
        None
    } else {
        Some((sum.compressed, sum.decompressed))
    }
}

} // verus!

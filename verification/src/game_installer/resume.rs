//! What an interrupted installation has left, and what of it can be used.

use vstd::prelude::*;
use crate::collections::add_name;
use crate::collections::has_name;
use crate::collections::names;
use crate::collections::new_name_map;
use crate::collections::new_name_set;
use crate::collections::number_at;
use crate::collections::numbered_names;
use crate::collections::numbers;
use crate::collections::put_number;
use crate::collections::value_at;
use crate::collections::NameMap;
use crate::collections::NameSet;
use crate::manifest::asset_names;
use crate::proto_parse::asset_views;
use crate::proto_parse::AssetView;
use crate::proto_parse::ChunkView;
use crate::proto_parse::SophonManifestAssetProperty;
use crate::text::views;
use super::compact_manifest::all_chunks;
use super::compact_manifest::flat_chunks;
use super::installer::combine_manifest_hashes;
use super::installer::combined_hash;
use super::installer::data_views;
use super::installer::hashes_of;
use super::installer::installer_views;
use super::installer::DataView;
use super::installer::InstallerData;
use super::installer::InstallerView;
use super::installer::SophonInstaller;
use super::names::asset_name_fault;
use super::names::chunk_name_ok;
use super::names::validate_asset_name;
use super::names::validate_chunk_name;

verus! {

/// A chunk file of an earlier run can be used: its name is sound, and its size
/// on disk is the one that was noted.
pub open spec fn chunk_usable(name: Seq<char>, size: u64, on_disk: Option<u64>) -> bool {
    chunk_name_ok(name) && on_disk == Some(size)
}

/// Whether a chunk file of an earlier run can be used.
pub fn chunk_still_valid_for_resume(chunk_name: &str, chunk_size: u64, on_disk: Option<u64>) -> (r:
    bool)
    ensures
        r == chunk_usable(chunk_name@, chunk_size, on_disk),
{
    validate_chunk_name(chunk_name) && match on_disk {
        Some(size) => size == chunk_size,
        None => false,
    }
}

/// A noted chunk is kept: it is noted with a size that its file has, and, where
/// the manifest has changed, the new one still lists it.
pub open spec fn chunk_kept(
    noted: Map<Seq<char>, u64>,
    on_disk: Map<Seq<char>, u64>,
    listed: Option<Set<Seq<char>>>,
    name: Seq<char>,
) -> bool {
    &&& noted.dom().contains(name)
    &&& chunk_usable(name, noted[name], value_at(on_disk, name))
    &&& match listed {
        Some(l) => l.contains(name),
        None => true,
    }
}

/// The names of a set, if there is one.
pub open spec fn listed_names(s: Option<&NameSet>) -> Option<Set<Seq<char>>> {
    match s {
        Some(l) => Some(names(*l)),
        None => None,
    }
}

/// The noted chunks that are kept.
pub fn keep_chunks(noted: &NameMap, on_disk: &NameMap, listed: Option<&NameSet>) -> (r: NameMap)
    ensures
        forall|n: Seq<char>| #[trigger]
            value_at(numbers(r), n) == if chunk_kept(
                numbers(*noted),
                numbers(*on_disk),
                listed_names(listed),
                n,
            ) {
                Some(numbers(*noted)[n])
            } else {
                None
            },
{
    let ghost m = numbers(*noted);
    let ghost d = numbers(*on_disk);
    let ghost l = listed_names(listed);
    let all = numbered_names(noted);
    let ghost vs = views(all@);
    let mut out = new_name_map();
    let mut i: usize = 0;
    while i < all.len()
        invariant
            i <= all@.len(),
            vs == views(all@),
            vs.no_duplicates(),
            vs.to_set() == m.dom(),
            m == numbers(*noted),
            d == numbers(*on_disk),
            l == listed_names(listed),
            forall|n: Seq<char>| #[trigger]
                value_at(numbers(out), n) == if vs.take(i as int).contains(n) && chunk_kept(
                    m,
                    d,
                    l,
                    n,
                ) {
                    Some(m[n])
                } else {
                    None
                },
        decreases all@.len() - i,
    {
        let name = &all[i];
        assert(vs[i as int] == name@);
        assert(vs.to_set().contains(name@));
        let ghost before = numbers(out);
        match number_at(noted, name.as_str()) {
            Some(size) => {
                let usable = chunk_still_valid_for_resume(
                    name.as_str(),
                    size,
                    number_at(on_disk, name.as_str()),
                );
                let wanted = match listed {
                    Some(set) => has_name(set, name.as_str()),
                    None => true,
                };
                if usable && wanted {
                    put_number(&mut out, name.clone(), size);
                }
                assert((usable && wanted) == chunk_kept(m, d, l, name@));
            },
            None => {},
        }
        proof {
            assert forall|n: Seq<char>| #[trigger]
                value_at(numbers(out), n) == if vs.take(i as int + 1).contains(n) && chunk_kept(
                    m,
                    d,
                    l,
                    n,
                ) {
                    Some(m[n])
                } else {
                    None
                } by {
                assert(value_at(before, n) == if vs.take(i as int).contains(n) && chunk_kept(
                    m,
                    d,
                    l,
                    n,
                ) {
                    Some(m[n])
                } else {
                    None
                });
                let p = vs.take(i as int);
                let q = vs.take(i as int + 1);
                if n == name@ {
                    assert(q[i as int] == n);
                    if p.contains(n) {
                        let k = choose|k: int| 0 <= k < p.len() && p[k] == n;
                        assert(vs[k] == vs[i as int]);
                    }
                } else {
                    if q.contains(n) {
                        let k = choose|k: int| 0 <= k < q.len() && q[k] == n;
                        assert(p[k] == n);
                    }
                    if p.contains(n) {
                        let k = choose|k: int| 0 <= k < p.len() && p[k] == n;
                        assert(q[k] == n);
                    }
                }
            }
        }
        i += 1;
    }
    proof {
        assert(vs.take(vs.len() as int) =~= vs);
        assert forall|n: Seq<char>| #[trigger]
            value_at(numbers(out), n) == if chunk_kept(m, d, l, n) {
                Some(m[n])
            } else {
                None
            } by {
            assert(vs.to_set().contains(n) <==> m.dom().contains(n));
            assert(vs.contains(n) <==> m.dom().contains(n));
        }
    }
    out
}

/// The names of the chunks among `s`.
pub open spec fn chunk_names(s: Seq<ChunkView>) -> Set<Seq<char>>
    decreases s.len(),
{
    if s.len() == 0 {
        Set::empty()
    } else {
        chunk_names(s.drop_last()).insert(s.last().name)
    }
}

/// The chunks of the first `n` installers.
pub open spec fn installer_chunks(v: Seq<InstallerView>, n: int) -> Seq<ChunkView>
    decreases n,
{
    if n <= 0 {
        Seq::empty()
    } else {
        installer_chunks(v, n - 1) + all_chunks(v[n - 1].assets)
    }
}

/// Adds the names of the chunks of some assets to `out`.
fn add_chunk_names(
    assets: &Vec<SophonManifestAssetProperty>,
    out: &mut NameSet,
    Ghost(head): Ghost<Seq<ChunkView>>,
)
    requires
        names(*old(out)) == chunk_names(head),
    ensures
        names(*final(out)) == chunk_names(head + all_chunks(asset_views(assets@))),
{
    let ghost all = asset_views(assets@);
    let mut f: usize = 0;
    assert(head + flat_chunks(all, 0) =~= head);
    while f < assets.len()
        invariant
            f <= assets@.len(),
            all == asset_views(assets@),
            names(*out) == chunk_names(head + flat_chunks(all, f as int)),
        decreases assets@.len() - f,
    {
        let ghost done = head + flat_chunks(all, f as int);
        let list = &assets[f].asset_chunks;
        let ghost chunks = all[f as int].chunks;
        let mut c: usize = 0;
        assert(done + chunks.take(0) =~= done);
        while c < list.len()
            invariant
                c <= list@.len(),
                chunks == crate::proto_parse::chunk_views(list@),
                names(*out) == chunk_names(done + chunks.take(c as int)),
            decreases list@.len() - c,
        {
            add_name(out, list[c].chunk_name.clone());
            proof {
                let s = done + chunks.take(c as int + 1);
                assert(s.drop_last() =~= done + chunks.take(c as int));
                assert(s.last() == chunks[c as int]);
                assert(chunks[c as int] == list@[c as int]@);
            }
            c += 1;
        }
        assert(done + chunks.take(chunks.len() as int) =~= head + flat_chunks(all, f as int + 1));
        f += 1;
    }
}

/// The names of all chunks of some installers.
pub fn manifest_chunk_names(installers: &Vec<SophonInstaller>) -> (r: NameSet)
    ensures
        names(r) == chunk_names(
            installer_chunks(installer_views(installers@), installers@.len() as int),
        ),
{
    let ghost v = installer_views(installers@);
    let mut out = new_name_set();
    let mut i: usize = 0;
    while i < installers.len()
        invariant
            i <= installers@.len(),
            v == installer_views(installers@),
            names(out) == chunk_names(installer_chunks(v, i as int)),
        decreases installers@.len() - i,
    {
        assert(v[i as int] == installers@[i as int]@);
        add_chunk_names(
            &installers[i].manifest.assets,
            &mut out,
            Ghost(installer_chunks(v, i as int)),
        );
        i += 1;
    }
    out
}

/// The chunks of an earlier run that are used again, and whether the manifests
/// have changed since. The chunks are those that are still on disk; where the
/// manifests have changed, only those that the new ones list.
pub fn resume_chunks(
    installers: &Vec<SophonInstaller>,
    prev_manifest_hash: &str,
    noted: &NameMap,
    on_disk: &NameMap,
) -> (r: (NameMap, bool))
    ensures
        r.1 == (prev_manifest_hash@ != combined_hash(hashes_of(installers@))),
        ({
            let listed = if r.1 {
                Some(
                    chunk_names(
                        installer_chunks(installer_views(installers@), installers@.len() as int),
                    ),
                )
            } else {
                None
            };
            forall|n: Seq<char>| #[trigger]
                value_at(numbers(r.0), n) == if chunk_kept(
                    numbers(*noted),
                    numbers(*on_disk),
                    listed,
                    n,
                ) {
                    Some(numbers(*noted)[n])
                } else {
                    None
                }
        }),
{
    let hash = combine_manifest_hashes(installers);
    if *hash.as_str() != *prev_manifest_hash {
        let listed = manifest_chunk_names(installers);
        (keep_chunks(noted, on_disk, Some(&listed)), true)
    } else {
        (keep_chunks(noted, on_disk, None), false)
    }
}

/// No chunk is used again that was not noted, or whose file is gone or has
/// another size; after a change of the manifests, none that they do not list.
pub proof fn law_only_sound_chunks_are_kept(
    noted: Map<Seq<char>, u64>,
    on_disk: Map<Seq<char>, u64>,
    listed: Option<Set<Seq<char>>>,
    name: Seq<char>,
)
    requires
        chunk_kept(noted, on_disk, listed, name),
    ensures
        on_disk.dom().contains(name),
        on_disk[name] == noted[name],
        chunk_name_ok(name),
        listed matches Some(l) ==> l.contains(name),
{
}

/// The names of those of the first `n` assets that are directories with a sound
/// name.
pub open spec fn directories_below(assets: Seq<AssetView>, n: int) -> Seq<Seq<char>>
    decreases n,
{
    if n <= 0 {
        Seq::empty()
    } else if assets[n - 1].is_directory() && asset_name_fault(assets[n - 1].name) is None {
        directories_below(assets, n - 1).push(assets[n - 1].name)
    } else {
        directories_below(assets, n - 1)
    }
}

/// The directories of the first `n` installers.
pub open spec fn installer_directories(v: Seq<InstallerView>, n: int) -> Seq<Seq<char>>
    decreases n,
{
    if n <= 0 {
        Seq::empty()
    } else {
        installer_directories(v, n - 1) + directories_below(
            v[n - 1].assets,
            v[n - 1].assets.len() as int,
        )
    }
}

/// The directories that an installation creates first; one whose name may lead
/// out of the game directory is left out.
pub fn directories_to_create(installers: &Vec<SophonInstaller>) -> (r: Vec<String>)
    ensures
        views(r@) == installer_directories(installer_views(installers@), installers@.len() as int),
{
    let ghost v = installer_views(installers@);
    let mut out: Vec<String> = Vec::new();
    let mut i: usize = 0;
    assert(views(out@) =~= installer_directories(v, 0));
    while i < installers.len()
        invariant
            i <= installers@.len(),
            v == installer_views(installers@),
            views(out@) == installer_directories(v, i as int),
        decreases installers@.len() - i,
    {
        assert(v[i as int] == installers@[i as int]@);
        let ghost head = views(out@);
        let assets = &installers[i].manifest.assets;
        let ghost all = v[i as int].assets;
        let mut k: usize = 0;
        assert(head + directories_below(all, 0) =~= head);
        while k < assets.len()
            invariant
                k <= assets@.len(),
                all == asset_views(assets@),
                views(out@) == head + directories_below(all, k as int),
            decreases assets@.len() - k,
        {
            let a = &assets[k];
            assert(all[k as int] == a@);
            let ghost before = views(out@);
            if a.is_directory() && validate_asset_name(a.asset_name.as_str()).is_ok() {
                out.push(a.asset_name.clone());
                assert(views(out@) =~= before.push(a@.name));
                assert(views(out@) =~= head + directories_below(all, k as int + 1));
            }
            k += 1;
        }
        i += 1;
    }
    out
}

/// `m` with the names at `from..to` given to the installer at `i`.
pub open spec fn given(
    m: Map<Seq<char>, u64>,
    files: Seq<Seq<char>>,
    from: int,
    to: int,
    i: int,
) -> Map<Seq<char>, u64>
    decreases to - from,
{
    if to <= from {
        m
    } else {
        given(m, files, from, to - 1, i).insert(files[to - 1], i as u64)
    }
}

/// Where the files of the installer at `i` start: each takes as many as it counts,
/// as far as there are any.
pub open spec fn share_start(data: Seq<DataView>, n: int, i: int) -> int
    decreases i,
{
    if i <= 0 {
        0
    } else {
        let end = share_start(data, n, i - 1) + data[i - 1].file_count;
        if end <= n {
            end
        } else {
            n
        }
    }
}

/// The installer of each file, by name, out of the first `i` installers.
pub open spec fn owners(data: Seq<DataView>, files: Seq<Seq<char>>, i: int) -> Map<Seq<char>, u64>
    decreases i,
{
    if i <= 0 {
        Map::empty()
    } else {
        let n = files.len() as int;
        given(
            owners(data, files, i - 1),
            files,
            share_start(data, n, i - 1),
            share_start(data, n, i),
            i - 1,
        )
    }
}

/// The installer of each file, by name.
pub fn file_owners(
    installer_data: &Vec<InstallerData>,
    files: &Vec<SophonManifestAssetProperty>,
) -> (r: NameMap)
    ensures
        numbers(r) == owners(
            data_views(installer_data@),
            asset_names(asset_views(files@)),
            installer_data@.len() as int,
        ),
        forall|n: Seq<char>| #[trigger]
            numbers(r).dom().contains(n) ==> numbers(r)[n] < installer_data@.len(),
{
    let ghost data = data_views(installer_data@);
    let ghost all = asset_names(asset_views(files@));
    let total: usize = files.len();
    let count: usize = installer_data.len();
    let mut m = new_name_map();
    let mut at: usize = 0;
    let mut i: usize = 0;
    while i < count
        invariant
            i <= count,
            count == installer_data@.len(),
            total == files@.len(),
            total == all.len(),
            data == data_views(installer_data@),
            all == asset_names(asset_views(files@)),
            at <= total,
            at == share_start(data, total as int, i as int),
            numbers(m) == owners(data, all, i as int),
            forall|n: Seq<char>| #[trigger]
                numbers(m).dom().contains(n) ==> numbers(m)[n] < count,
        decreases count - i,
    {
        let want: usize = installer_data[i].file_count;
        assert(data[i as int].file_count == want);
        let end: usize = if want <= total - at {
            at + want
        } else {
            total
        };
        assert(end == share_start(data, total as int, i as int + 1));
        let ghost m0 = numbers(m);
        let mut k: usize = at;
        while k < end
            invariant
                at <= k <= end <= total,
                i < count,
                total == files@.len(),
                total == all.len(),
                all == asset_names(asset_views(files@)),
                numbers(m) == given(m0, all, at as int, k as int, i as int),
                forall|n: Seq<char>| #[trigger]
                    numbers(m).dom().contains(n) ==> numbers(m)[n] < count,
            decreases end - k,
        {
            assert(all[k as int] == files@[k as int]@.name);
            let ghost before = numbers(m);
            put_number(&mut m, files[k].asset_name.clone(), i as u64);
            assert forall|n: Seq<char>| #[trigger] numbers(m).dom().contains(n) implies numbers(
                m,
            )[n] < count by {
                assert(n != all[k as int] ==> before.dom().contains(n));
            }
            k += 1;
        }
        at = end;
        i += 1;
    }
    m
}

/// The number of the first `n` files that belong to the installer at `i`.
pub open spec fn owned(m: Map<Seq<char>, u64>, files: Seq<Seq<char>>, n: int, i: int) -> int
    decreases n,
{
    if n <= 0 {
        0
    } else {
        owned(m, files, n - 1, i) + if value_at(m, files[n - 1]) == Some(i as u64) {
            1int
        } else {
            0int
        }
    }
}

/// The number of files that each of `count` installers is left with.
pub fn recount_files(
    owner_of: &NameMap,
    count: usize,
    files: &Vec<SophonManifestAssetProperty>,
) -> (r: Vec<usize>)
    requires
        forall|n: Seq<char>| #[trigger]
            numbers(*owner_of).dom().contains(n) ==> numbers(*owner_of)[n] < count,
    ensures
        r@.len() == count,
        forall|i: int|
            0 <= i < count ==> #[trigger] r@[i] == owned(
                numbers(*owner_of),
                asset_names(asset_views(files@)),
                files@.len() as int,
                i,
            ),
{
    let ghost m = numbers(*owner_of);
    let ghost all = asset_names(asset_views(files@));
    let mut out: Vec<usize> = Vec::new();
    let mut z: usize = 0;
    while z < count
        invariant
            z <= count,
            out@.len() == z,
            forall|i: int| 0 <= i < z ==> #[trigger] out@[i] == 0,
        decreases count - z,
    {
        out.push(0);
        z += 1;
    }
    let total: usize = files.len();
    let mut k: usize = 0;
    while k < total
        invariant
            k <= total,
            total == files@.len(),
            m == numbers(*owner_of),
            all == asset_names(asset_views(files@)),
            out@.len() == count,
            forall|n: Seq<char>| #[trigger] m.dom().contains(n) ==> m[n] < count,
            forall|i: int|
                0 <= i < count ==> #[trigger] out@[i] == owned(m, all, k as int, i) && out@[i] <= k,
        decreases total - k,
    {
        assert(all[k as int] == files@[k as int]@.name);
        match number_at(owner_of, files[k].asset_name.as_str()) {
            Some(i) => {
                assert(m.dom().contains(all[k as int]));
                let was: usize = out[i as usize];
                out.set(i as usize, was + 1);
            },
            None => {},
        }
        k += 1;
    }
    out
}

} // verus!

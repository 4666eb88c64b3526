//! What an update comes to: which parts of the game it reaches, which files it
//! installs, and which it deletes.

use vstd::prelude::*;
use crate::manifest::asset_names;
use crate::proto_parse::AssetView;
use crate::proto_parse::ChunkView;
use super::api::known_locale;
use super::api::speaks;
use super::chunk_reuse::changed_assets;
use super::chunk_reuse::changed_below;
use super::chunk_reuse::changes;
use super::chunk_reuse::deleted_below;
use super::chunk_reuse::interned;
use super::chunk_reuse::md5s_below;
use super::chunk_reuse::placed_asset;
use super::chunk_reuse::placed_chunk;
use super::chunk_reuse::Interned;
use super::installer::InstallerView;
use super::update_plan::damaged_names;
use super::update_plan::update_installers;
use super::update_plan::update_removals;
use super::update_plan::UpdateView;

verus! {

/// A part of the game is in an installation in the language `lang`: it is the
/// game itself, a voice pack in that language, or no voice pack.
pub open spec fn wanted(field: Seq<char>, lang: Seq<char>) -> bool {
    field == "game"@ || speaks(field, lang) || !known_locale(field)
}

/// The manifest has a file of that name and checksum.
pub open spec fn lists_file(assets: Seq<AssetView>, name: Seq<char>, md5: Seq<char>) -> bool {
    exists|i: int|
        0 <= i < assets.len() && !(#[trigger] assets[i]).is_directory() && assets[i].name == name
            && assets[i].md5 == md5
}

/// One of the first `n` old files of that name is missing, or has another size on
/// disk than its manifest states.
pub open spec fn is_damaged(
    old: Seq<AssetView>,
    on_disk: Seq<Option<u64>>,
    n: int,
    name: Seq<char>,
) -> bool {
    exists|i: int|
        0 <= i < n && !(#[trigger] old[i]).is_directory() && old[i].name == name && on_disk[i]
            != Some(old[i].size)
}

/// A file of the new build is new, has another checksum than the old files of its
/// name, or has an old version that is damaged.
pub open spec fn needs_update(u: UpdateView, a: AssetView) -> bool {
    !a.is_directory() && match u.old {
        None => true,
        Some((old, on_disk)) => is_damaged(old, on_disk, old.len() as int, a.name) || !lists_file(
            old,
            a.name,
            a.md5,
        ),
    }
}

/// A file of the new build is there already: its old version is undamaged and has
/// its checksum.
pub open spec fn is_current(u: UpdateView, a: AssetView) -> bool {
    !a.is_directory() && match u.old {
        None => false,
        Some((old, on_disk)) => {
            &&& !is_damaged(old, on_disk, old.len() as int, a.name)
            &&& lists_file(old, a.name, a.md5)
            &&& forall|i: int|
                0 <= i < old.len() && !(#[trigger] old[i]).is_directory() && old[i].name == a.name
                    ==> old[i].md5 == a.md5
        },
    }
}

/// Two assets agree in everything but where the old files hold their chunks.
pub open spec fn same_but_places(x: AssetView, a: AssetView) -> bool {
    &&& x.name == a.name
    &&& x.size == a.size
    &&& x.md5 == a.md5
    &&& x.asset_type == a.asset_type
    &&& x.chunks.len() == a.chunks.len()
    &&& forall|c: int|
        0 <= c < a.chunks.len() ==> #[trigger] x.chunks[c] == (ChunkView {
            old_offset: x.chunks[c].old_offset,
            ..a.chunks[c]
        })
}

/// One of the assets is `a`, whatever the places of its chunks.
pub open spec fn has_asset(assets: Seq<AssetView>, a: AssetView) -> bool {
    exists|i: int| 0 <= i < assets.len() && same_but_places(#[trigger] assets[i], a)
}

/// An installer is for the part of the game that an update is for, from the source
/// of the new build.
pub open spec fn is_for(x: InstallerView, u: UpdateView) -> bool {
    x.field == u.field && x.download == u.download && x.hash == u.hash
}

/// One of the installers is for the update and installs the file.
pub open spec fn is_installed(installers: Seq<InstallerView>, u: UpdateView, a: AssetView) -> bool {
    exists|j: int|
        0 <= j < installers.len() && is_for(#[trigger] installers[j], u) && has_asset(
            installers[j].assets,
            a,
        )
}

/// An installer installs only what an update needs: it has something to install,
/// and each of its assets is one of the new build that is not there already.
pub open spec fn serves(x: InstallerView, u: UpdateView) -> bool {
    &&& is_for(x, u)
    &&& x.assets.len() > 0
    &&& forall|i: int| 0 <= i < x.assets.len() ==> is_outdated(u, #[trigger] x.assets[i])
}

/// An asset is one of the new build that is not there already.
pub open spec fn is_outdated(u: UpdateView, x: AssetView) -> bool {
    exists|f: int|
        0 <= f < u.assets.len() && same_but_places(x, #[trigger] u.assets[f]) && !is_current(
            u,
            u.assets[f],
        )
}

/// An installer is for one of the updates that belong to the installation.
pub open spec fn serves_one(us: Seq<UpdateView>, lang: Seq<char>, n: int, x: InstallerView) -> bool {
    exists|k: int| 0 <= k < n && wanted(us[k].field, lang) && serves(x, #[trigger] us[k])
}

/// The update leaves a file behind: its old manifest has it and its new one lacks
/// it.
pub open spec fn leaves_behind(u: UpdateView, name: Seq<char>) -> bool {
    &&& u.old matches Some((old, _)) && exists|i: int|
        0 <= i < old.len() && !(#[trigger] old[i]).is_directory() && old[i].name == name
    &&& forall|f: int| 0 <= f < u.assets.len() ==> (#[trigger] u.assets[f]).name != name
}

/// One of the updates that belong to the installation leaves a file behind.
pub open spec fn is_left_behind(us: Seq<UpdateView>, lang: Seq<char>, n: int, name: Seq<char>) -> bool {
    exists|k: int| 0 <= k < n && wanted(us[k].field, lang) && leaves_behind(#[trigger] us[k], name)
}

/// An update reaches the game itself, the voice packs of the language that is
/// asked for and whatever is no voice pack, and nothing else: every file of these
/// that is new, has changed or is damaged is installed, with the checksum and the
/// chunks of the new build and from its source; nothing that is there already is
/// installed; and exactly the old files that the new build lacks are deleted.
pub proof fn law_updates_reach_what_is_installed(
    us: Seq<UpdateView>,
    lang: Seq<char>,
    installers: Seq<InstallerView>,
    deleted: Seq<Seq<char>>,
)
    requires
        forall|k: int| 0 <= k < us.len() ==> (#[trigger] us[k]).wf(),
        installers == update_installers(us, lang, us.len() as int),
        deleted == update_removals(us, lang, us.len() as int),
    ensures
        forall|k: int, f: int|
            #![trigger us[k].assets[f]]
            0 <= k < us.len() && wanted(us[k].field, lang) && 0 <= f < us[k].assets.len()
                && needs_update(us[k], us[k].assets[f]) ==> is_installed(
                installers,
                us[k],
                us[k].assets[f],
            ),
        forall|j: int|
            0 <= j < installers.len() ==> serves_one(us, lang, us.len() as int, #[trigger] installers[j]),
        forall|j: int|
            0 <= j < installers.len() ==> wanted((#[trigger] installers[j]).field, lang),
        forall|name: Seq<char>|
            deleted.contains(name) <==> #[trigger] is_left_behind(us, lang, us.len() as int, name),
{
    lemma_installers(us, lang, us.len() as int);
    lemma_removals(us, lang, us.len() as int);
    assert forall|j: int| 0 <= j < installers.len() implies wanted(
        (#[trigger] installers[j]).field,
        lang,
    ) by {
        assert(serves_one(us, lang, us.len() as int, installers[j]));
    }
}

proof fn lemma_damaged(old: Seq<AssetView>, on_disk: Seq<Option<u64>>, n: int, name: Seq<char>)
    requires
        0 <= n <= old.len(),
        on_disk.len() == old.len(),
    ensures
        damaged_names(old, on_disk, n).contains(name) <==> is_damaged(old, on_disk, n, name),
    decreases n,
{
    if n > 0 {
        lemma_damaged(old, on_disk, n - 1, name);
        let x = old[n - 1];
        if !x.is_directory() && on_disk[n - 1] != Some(x.size) && x.name == name {
            assert(is_damaged(old, on_disk, n, name));
        }
        if is_damaged(old, on_disk, n - 1, name) {
            let i = choose|i: int|
                0 <= i < n - 1 && !(#[trigger] old[i]).is_directory() && old[i].name == name
                    && on_disk[i] != Some(old[i].size);
            assert(old[i].name == name);
        }
    }
}

proof fn lemma_md5s(old: Seq<AssetView>, bad: Set<Seq<char>>, n: int, name: Seq<char>)
    requires
        0 <= n <= old.len(),
    ensures
        ({
            let m = md5s_below(old, bad, n);
            &&& m.dom().contains(name) ==> !bad.contains(name) && exists|i: int|
                0 <= i < n && !(#[trigger] old[i]).is_directory() && old[i].name == name
                    && old[i].md5 == m[name]
            &&& !bad.contains(name) && (exists|i: int|
                0 <= i < n && !(#[trigger] old[i]).is_directory() && old[i].name == name)
                ==> m.dom().contains(name)
        }),
    decreases n,
{
    if n > 0 {
        lemma_md5s(old, bad, n - 1, name);
        let x = old[n - 1];
        let m = md5s_below(old, bad, n);
        let b = md5s_below(old, bad, n - 1);
        if m.dom().contains(name) {
            if !x.is_directory() && !bad.contains(x.name) && x.name == name {
                assert(old[n - 1].md5 == m[name]);
            } else {
                assert(b.dom().contains(name) && b[name] == m[name]);
                let i = choose|i: int|
                    0 <= i < n - 1 && !(#[trigger] old[i]).is_directory() && old[i].name == name
                        && old[i].md5 == b[name];
                assert(old[i].md5 == m[name]);
            }
        }
        if !bad.contains(name) && !m.dom().contains(name) {
            assert(!b.dom().contains(name));
            assert forall|i: int|
                0 <= i < n && !(#[trigger] old[i]).is_directory() implies old[i].name != name by {}
        }
    }
}

/// Whether an asset is among those that an update takes.
proof fn lemma_changes(u: UpdateView, a: AssetView)
    requires
        u.wf(),
        u.old is Some,
    ensures
        ({
            let (old, on_disk) = u.old->0;
            let bad = damaged_names(old, on_disk, old.len() as int);
            let m = md5s_below(old, bad, old.len() as int);
            &&& needs_update(u, a) ==> changes(a, m)
            &&& is_current(u, a) ==> !changes(a, m)
        }),
{
    let (old, on_disk) = u.old->0;
    let n = old.len() as int;
    let bad = damaged_names(old, on_disk, n);
    let m = md5s_below(old, bad, n);
    lemma_damaged(old, on_disk, n, a.name);
    lemma_md5s(old, bad, n, a.name);
    if m.dom().contains(a.name) {
        let i = choose|i: int|
            0 <= i < n && !(#[trigger] old[i]).is_directory() && old[i].name == a.name && old[i].md5
                == m[a.name];
        assert(old[i].md5 == m[a.name]);
        assert(needs_update(u, a) ==> m[a.name] != a.md5);
        assert(is_current(u, a) ==> m[a.name] == a.md5);
    } else if is_current(u, a) {
        let i = choose|i: int|
            0 <= i < old.len() && !(#[trigger] old[i]).is_directory() && old[i].name == a.name
                && old[i].md5 == a.md5;
        assert(!old[i].is_directory() && old[i].name == a.name);
    }
}

proof fn lemma_changed(new: Seq<AssetView>, m: Map<Seq<char>, Seq<char>>, n: int)
    requires
        0 <= n <= new.len(),
    ensures
        ({
            let r = changed_below(new, m, n);
            &&& forall|f: int|
                0 <= f < n && changes(#[trigger] new[f], m) ==> r.contains(new[f])
            &&& forall|i: int|
                0 <= i < r.len() ==> changes(#[trigger] r[i], m) && new.contains(r[i])
        }),
    decreases n,
{
    if n > 0 {
        lemma_changed(new, m, n - 1);
        let b = changed_below(new, m, n - 1);
        let r = changed_below(new, m, n);
        assert forall|f: int| 0 <= f < n && changes(#[trigger] new[f], m) implies r.contains(new[f]) by {
            if f < n - 1 {
                let i = choose|i: int| 0 <= i < b.len() && b[i] == new[f];
                assert(r[i] == new[f]);
            } else {
                assert(r[b.len() as int] == new[f]);
            }
        }
        assert forall|i: int| 0 <= i < r.len() implies changes(#[trigger] r[i], m) && new.contains(
            r[i],
        ) by {
            if i < b.len() {
                assert(r[i] == b[i]);
            } else {
                assert(r[i] == new[n - 1]);
            }
        }
    }
}

proof fn lemma_placed(a: AssetView, t: Interned)
    ensures
        same_but_places(placed_asset(a, t), a),
{
    let x = placed_asset(a, t);
    assert forall|c: int| 0 <= c < a.chunks.len() implies #[trigger] x.chunks[c] == (ChunkView {
        old_offset: x.chunks[c].old_offset,
        ..a.chunks[c]
    }) by {
        assert(x.chunks[c] == placed_chunk(a.chunks[c], t, a.name));
    }
}

proof fn lemma_update_takes(u: UpdateView)
    requires
        u.wf(),
    ensures
        forall|f: int|
            0 <= f < u.assets.len() && needs_update(u, #[trigger] u.assets[f]) ==> has_asset(
                u.changed(),
                u.assets[f],
            ),
        forall|i: int| 0 <= i < u.changed().len() ==> is_outdated(u, #[trigger] u.changed()[i]),
{
    let made = u.changed();
    match u.old {
        None => {
            let m = Map::<Seq<char>, Seq<char>>::empty();
            lemma_changed(u.assets, m, u.assets.len() as int);
            assert forall|f: int|
                0 <= f < u.assets.len() && needs_update(u, #[trigger] u.assets[f]) implies has_asset(
                made,
                u.assets[f],
            ) by {
                assert(changes(u.assets[f], m));
                let i = choose|i: int| 0 <= i < made.len() && made[i] == u.assets[f];
                assert(same_but_places(made[i], u.assets[f]));
            }
            assert forall|i: int| 0 <= i < made.len() implies is_outdated(u, #[trigger] made[i]) by {
                let f = choose|f: int| 0 <= f < u.assets.len() && u.assets[f] == made[i];
                assert(same_but_places(made[i], u.assets[f]));
            }
        },
        Some((old, on_disk)) => {
            let bad = damaged_names(old, on_disk, old.len() as int);
            let m = md5s_below(old, bad, old.len() as int);
            let t = interned(old, bad);
            let taken = changed_assets(u.assets, m);
            lemma_changed(u.assets, m, u.assets.len() as int);
            assert(made.len() == taken.len());
            assert forall|f: int|
                0 <= f < u.assets.len() && needs_update(u, #[trigger] u.assets[f]) implies has_asset(
                made,
                u.assets[f],
            ) by {
                lemma_changes(u, u.assets[f]);
                let i = choose|i: int| 0 <= i < taken.len() && taken[i] == u.assets[f];
                assert(made[i] == placed_asset(taken[i], t));
                lemma_placed(u.assets[f], t);
            }
            assert forall|i: int| 0 <= i < made.len() implies is_outdated(u, #[trigger] made[i]) by {
                assert(made[i] == placed_asset(taken[i], t));
                let f = choose|f: int| 0 <= f < u.assets.len() && u.assets[f] == taken[i];
                lemma_placed(taken[i], t);
                lemma_changes(u, u.assets[f]);
                assert(changes(taken[i], m));
                assert(same_but_places(made[i], u.assets[f]));
            }
        },
    }
}

proof fn lemma_installers(us: Seq<UpdateView>, lang: Seq<char>, n: int)
    requires
        forall|k: int| 0 <= k < us.len() ==> (#[trigger] us[k]).wf(),
        0 <= n <= us.len(),
    ensures
        ({
            let r = update_installers(us, lang, n);
            &&& forall|k: int, f: int|
                #![trigger us[k].assets[f]]
                0 <= k < n && wanted(us[k].field, lang) && 0 <= f < us[k].assets.len()
                    && needs_update(us[k], us[k].assets[f]) ==> is_installed(
                    r,
                    us[k],
                    us[k].assets[f],
                )
            &&& forall|j: int| 0 <= j < r.len() ==> serves_one(us, lang, n, #[trigger] r[j])
        }),
    decreases n,
{
    if n > 0 {
        lemma_installers(us, lang, n - 1);
        let b = update_installers(us, lang, n - 1);
        let r = update_installers(us, lang, n);
        let u = us[n - 1];
        lemma_update_takes(u);
        assert forall|k: int, f: int|
            #![trigger us[k].assets[f]]
            0 <= k < n && wanted(us[k].field, lang) && 0 <= f < us[k].assets.len() && needs_update(
                us[k],
                us[k].assets[f],
            ) implies is_installed(r, us[k], us[k].assets[f]) by {
            let a = us[k].assets[f];
            if k < n - 1 {
                assert(is_installed(b, us[k], a));
                let j = choose|j: int|
                    0 <= j < b.len() && is_for(#[trigger] b[j], us[k]) && has_asset(b[j].assets, a);
                assert(r[j] == b[j]);
            } else {
                assert(has_asset(u.changed(), a));
                assert(r[b.len() as int] == u.installer());
            }
        }
        assert forall|j: int| 0 <= j < r.len() implies serves_one(us, lang, n, #[trigger] r[j]) by {
            if j < b.len() {
                assert(r[j] == b[j]);
                let k = choose|k: int|
                    0 <= k < n - 1 && wanted(us[k].field, lang) && serves(b[j], #[trigger] us[k]);
                assert(serves(r[j], us[k]));
            } else {
                assert(r[j] == u.installer());
                assert forall|i: int| 0 <= i < r[j].assets.len() implies is_outdated(
                    u,
                    #[trigger] r[j].assets[i],
                ) by {
                    assert(r[j].assets[i] == u.changed()[i]);
                }
                assert(serves(r[j], us[n - 1]));
            }
        }
    }
}

proof fn lemma_deleted(old: Seq<AssetView>, kept: Set<Seq<char>>, n: int, name: Seq<char>)
    requires
        0 <= n <= old.len(),
    ensures
        deleted_below(old, kept, n).contains(name) <==> !kept.contains(name) && exists|i: int|
            0 <= i < n && !(#[trigger] old[i]).is_directory() && old[i].name == name,
    decreases n,
{
    if n > 0 {
        lemma_deleted(old, kept, n - 1, name);
        let b = deleted_below(old, kept, n - 1);
        let r = deleted_below(old, kept, n);
        if b.contains(name) {
            let j = choose|j: int| 0 <= j < b.len() && b[j] == name;
            assert(r[j] == name);
        }
        if r.contains(name) {
            let j = choose|j: int| 0 <= j < r.len() && r[j] == name;
            if j < b.len() {
                assert(b[j] == name);
            } else {
                assert(old[n - 1].name == name);
            }
        }
        if !kept.contains(name) && !old[n - 1].is_directory() && old[n - 1].name == name {
            assert(r[b.len() as int] == name);
        }
    }
}

proof fn lemma_removed(u: UpdateView, name: Seq<char>)
    ensures
        u.removed().contains(name) <==> leaves_behind(u, name),
{
    let all = asset_names(u.assets);
    if all.contains(name) {
        let f = choose|f: int| 0 <= f < all.len() && all[f] == name;
        assert(u.assets[f].name == name);
    } else {
        assert forall|f: int| 0 <= f < u.assets.len() implies (#[trigger] u.assets[f]).name != name by {
            assert(all[f] == u.assets[f].name);
        }
    }
    match u.old {
        None => {},
        Some((old, _)) => {
            lemma_deleted(old, all.to_set(), old.len() as int, name);
        },
    }
}

proof fn lemma_removals(us: Seq<UpdateView>, lang: Seq<char>, n: int)
    requires
        0 <= n <= us.len(),
    ensures
        forall|name: Seq<char>|
            update_removals(us, lang, n).contains(name) <==> #[trigger] is_left_behind(
                us,
                lang,
                n,
                name,
            ),
    decreases n,
{
    if n > 0 {
        lemma_removals(us, lang, n - 1);
        let b = update_removals(us, lang, n - 1);
        let r = update_removals(us, lang, n);
        let u = us[n - 1];
        assert forall|name: Seq<char>| r.contains(name) <==> #[trigger] is_left_behind(
            us,
            lang,
            n,
            name,
        ) by {
            lemma_removed(u, name);
            assert(b.contains(name) <==> is_left_behind(us, lang, n - 1, name));
            if r.contains(name) {
                let j = choose|j: int| 0 <= j < r.len() && r[j] == name;
                if j < b.len() {
                    assert(b[j] == name);
                    let k = choose|k: int|
                        0 <= k < n - 1 && wanted(us[k].field, lang) && leaves_behind(
                            #[trigger] us[k],
                            name,
                        );
                    assert(leaves_behind(us[k], name));
                } else {
                    assert(u.removed()[j - b.len()] == name);
                    assert(leaves_behind(us[n - 1], name));
                }
            }
            if is_left_behind(us, lang, n, name) {
                let k = choose|k: int|
                    0 <= k < n && wanted(us[k].field, lang) && leaves_behind(#[trigger] us[k], name);
                if k < n - 1 {
                    assert(is_left_behind(us, lang, n - 1, name));
                    let j = choose|j: int| 0 <= j < b.len() && b[j] == name;
                    assert(r[j] == name);
                } else {
                    let j = choose|j: int| 0 <= j < u.removed().len() && u.removed()[j] == name;
                    assert(r[b.len() + j] == name);
                }
            }
        }
    }
}

} // verus!

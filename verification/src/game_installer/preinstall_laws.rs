//! What the plan of a preinstallation comes to: where its files, its patch files
//! and its deletions come from, and that none is left out.

use vstd::prelude::*;
use crate::digest::same_ignoring_case;
use crate::proto_parse::AssetView;
use super::patch_manifest::PatchedView;
use super::patch_manifest::PatchInfoView;
use super::patch_manifest::PieceView;
use super::patch_manifest::UnusedView;
use super::preinstall_plan::after_asset;
use super::preinstall_plan::after_assets;
use super::preinstall_plan::after_files;
use super::preinstall_plan::after_groups;
use super::preinstall_plan::after_main_assets;
use super::preinstall_plan::after_mains;
use super::preinstall_plan::after_patch;
use super::preinstall_plan::after_patches;
use super::preinstall_plan::after_unused;
use super::preinstall_plan::downloads_whole;
use super::preinstall_plan::game_from;
use super::preinstall_plan::has_main_field;
use super::preinstall_plan::info_from;
use super::preinstall_plan::law_new_files_are_downloaded;
use super::preinstall_plan::main_source;
use super::preinstall_plan::MainView;
use super::preinstall_plan::names_no_directory;
use super::preinstall_plan::PatchFileView;
use super::preinstall_plan::PatchMethod;
use super::preinstall_plan::PatchResultView;
use super::preinstall_plan::PlanView;
use super::preinstall_plan::sources_below;
use super::preinstall_plan::TargetView;
use super::preinstall_plan::whole_file;
use super::preinstall_plan::whole_plan;

verus! {

/// The patch at `n` is the first that starts at the version `tag`.
pub open spec fn is_first_patch(infos: Seq<PatchInfoView>, tag: Seq<char>, n: int) -> bool {
    &&& 0 <= n < infos.len()
    &&& same_ignoring_case(infos[n].version_tag, tag)
    &&& forall|m: int| 0 <= m < n ==> !same_ignoring_case((#[trigger] infos[m]).version_tag, tag)
}

/// The sizes and offsets that a piece states can be those of a file.
pub open spec fn states_sizes(c: PieceView) -> bool {
    0 <= c.patch_size && 0 <= c.patch_offset && 0 <= c.patch_length && 0 <= c.original_file_length
}

/// A planned file becomes what the patch manifest states of the file in the next
/// version, out of the piece; it starts from the original that the piece states,
/// where it states one.
pub open spec fn made_from(t: TargetView, a: PatchedView, c: PieceView, field: Seq<char>) -> bool {
    &&& t.target_file_path == a.name
    &&& t.target_file_size == a.size
    &&& t.target_file_hash == a.md5
    &&& t.matching_field == field
    &&& t.patch_name == c.patch_name
    &&& t.patch_hash == c.patch_md5
    &&& t.patch_offset == c.patch_offset
    &&& t.patch_size == c.patch_size
    &&& t.patch_chunk_length == c.patch_length
    &&& if c.original_file_name.len() == 0 {
        &&& t.patch_method == PatchMethod::CopyOver
        &&& t.original_file_path is None
        &&& t.original_file_hash is None
        &&& t.original_file_size is None
    } else {
        &&& t.patch_method == PatchMethod::Patch
        &&& t.original_file_path == Some(c.original_file_name)
        &&& t.original_file_hash == Some(c.original_file_md5)
        &&& t.original_file_size matches Some(n) && n == c.original_file_length
    }
}

/// A planned file is downloaded whole, and becomes the file of that name, size and
/// checksum.
pub open spec fn made_whole(t: TargetView, name: Seq<char>, size: int, md5: Seq<char>, field: Seq<char>) -> bool {
    &&& t.patch_method == PatchMethod::DownloadOver
    &&& t.target_file_path == name
    &&& t.target_file_size == size
    &&& t.target_file_hash == md5
    &&& t.matching_field == field
    &&& t.original_file_path is None
}

/// A planned file comes from the patch from the version `tag` to a file of a patch
/// manifest.
pub open spec fn comes_from_patch(a: PatchedView, tag: Seq<char>, field: Seq<char>, t: TargetView) -> bool {
    exists|n: int| #[trigger]
        is_first_patch(a.infos, tag, n) && (a.infos[n].chunk matches Some(c) && made_from(
            t,
            a,
            c,
            field,
        ))
}

/// There is no patch from the version `tag` to a file, or none with a piece.
pub open spec fn lacks_patch(a: PatchedView, tag: Seq<char>) -> bool {
    forall|n: int| #[trigger] is_first_patch(a.infos, tag, n) ==> a.infos[n].chunk is None
}

/// A planned file is a file of a patch manifest, and made as that states.
pub open spec fn comes_from_patches(
    patches: Seq<PatchResultView>,
    tag: Seq<char>,
    mains: Seq<MainView>,
    t: TargetView,
) -> bool {
    exists|p: int, k: int|
        0 <= p < patches.len() && 0 <= k < patches[p].manifest.assets.len() && {
            let a = #[trigger] patches[p].manifest.assets[k];
            let field = patches[p].field;
            ||| comes_from_patch(a, tag, field, t)
            ||| lacks_patch(a, tag) && is_part(mains, field) && made_whole(
                t,
                a.name,
                a.size as int,
                a.md5,
                field,
            )
        }
}

/// The next version has a manifest for the part of the game.
pub open spec fn is_part(mains: Seq<MainView>, field: Seq<char>) -> bool {
    exists|i: int| 0 <= i < mains.len() && (#[trigger] mains[i]).field == field
}

/// A planned file is a file of the next version that is downloaded whole.
pub open spec fn comes_from_mains(mains: Seq<MainView>, t: TargetView) -> bool {
    exists|m: int, k: int|
        0 <= m < mains.len() && 0 <= k < mains[m].assets.len() && {
            let a = #[trigger] mains[m].assets[k];
            !a.is_directory() && made_whole(t, a.name, a.size as int, a.md5, mains[m].field)
        }
}

/// A patch file that is downloaded is the one that a piece is a part of, with the
/// size and the checksum that the piece states, for the part of the game that the
/// patch manifest is for.
pub open spec fn is_patch_file(patches: Seq<PatchResultView>, tag: Seq<char>, x: PatchFileView) -> bool {
    exists|p: int, k: int|
        0 <= p < patches.len() && 0 <= k < patches[p].manifest.assets.len() && x.matching_field
            == patches[p].field && holds_piece(
            #[trigger] patches[p].manifest.assets[k],
            tag,
            x.patch_name,
            x.patch_size as int,
            x.patch_md5,
        )
}

/// The patch from the version `tag` to a file is in a patch file of that name,
/// size and checksum.
pub open spec fn holds_piece(a: PatchedView, tag: Seq<char>, name: Seq<char>, size: int, md5: Seq<char>) -> bool {
    exists|n: int| #[trigger]
        is_first_patch(a.infos, tag, n) && (a.infos[n].chunk matches Some(c) && c.patch_name == name
            && c.patch_size == size && c.patch_md5 == md5)
}

/// A patch manifest says that the next version no longer has a file of the version
/// `tag`.
pub open spec fn is_unused(patches: Seq<PatchResultView>, tag: Seq<char>, name: Seq<char>) -> bool {
    exists|p: int, u: int|
        0 <= p < patches.len() && 0 <= u < patches[p].manifest.unused.len() && same_ignoring_case(
            patches[p].manifest.unused[u].version_tag,
            tag,
        ) && lists_unused(#[trigger] patches[p].manifest.unused[u], name)
}

/// One of the groups has the name.
pub open spec fn lists_unused(u: UnusedView, name: Seq<char>) -> bool {
    exists|g: int, i: int|
        0 <= g < u.groups.len() && 0 <= i < u.groups[g].len() && #[trigger] u.groups[g][i] == name
}

/// No patch manifest has a file of that name.
pub open spec fn no_patch_names(patches: Seq<PatchResultView>, name: Seq<char>) -> bool {
    forall|p: int, k: int|
        0 <= p < patches.len() && 0 <= k < patches[p].manifest.assets.len() ==> (
        #[trigger] patches[p].manifest.assets[k]).name != name
}

spec fn sourced(s: PlanView, patches: Seq<PatchResultView>, tag: Seq<char>, mains: Seq<MainView>) -> bool {
    &&& forall|k: int|
        0 <= k < s.assets.len() ==> comes_from_patches(patches, tag, mains, #[trigger] s.assets[k])
            || comes_from_mains(mains, s.assets[k])
    &&& forall|i: int|
        0 <= i < s.chunks.len() ==> is_patch_file(patches, tag, #[trigger] s.chunks[i])
    &&& forall|i: int|
        0 <= i < s.deleted.len() ==> is_unused(patches, tag, #[trigger] s.deleted[i])
}

proof fn lemma_info_from(infos: Seq<PatchInfoView>, tag: Seq<char>, i: int)
    requires
        0 <= i <= infos.len(),
        forall|m: int| 0 <= m < i ==> !same_ignoring_case((#[trigger] infos[m]).version_tag, tag),
    ensures
        match info_from(infos, tag, i) {
            Some(x) => exists|n: int| #[trigger] is_first_patch(infos, tag, n) && infos[n] == x,
            None => forall|n: int| !#[trigger] is_first_patch(infos, tag, n),
        },
    decreases infos.len() - i,
{
    if i < infos.len() {
        if same_ignoring_case(infos[i].version_tag, tag) {
            assert(is_first_patch(infos, tag, i));
        } else {
            lemma_info_from(infos, tag, i + 1);
        }
    }
}

proof fn lemma_first_is_one(infos: Seq<PatchInfoView>, tag: Seq<char>, n: int, m: int)
    requires
        is_first_patch(infos, tag, n),
        is_first_patch(infos, tag, m),
    ensures
        n == m,
{
}

proof fn lemma_asset_sourced(
    s: PlanView,
    patches: Seq<PatchResultView>,
    tag: Seq<char>,
    mains: Seq<MainView>,
    p: int,
    k: int,
)
    requires
        0 <= p < patches.len(),
        0 <= k < patches[p].manifest.assets.len(),
        sourced(s, patches, tag, mains),
    ensures
        sourced(
            after_asset(
                s,
                patches[p].manifest.assets[k],
                patches[p].field,
                tag,
                has_main_field(mains, patches[p].field),
            ),
            patches,
            tag,
            mains,
        ),
{
    let a = patches[p].manifest.assets[k];
    let field = patches[p].field;
    let r = after_asset(s, a, field, tag, has_main_field(mains, field));
    lemma_info_from(a.infos, tag, 0);
    if has_main_field(mains, field) {
        let i = choose|i: int| 0 <= i < mains.len() && (#[trigger] mains[i]).field == field;
        assert(mains[i].field == field);
        assert(is_part(mains, field));
    }
    match info_from(a.infos, tag, 0) {
        Some(info) => {
            let n = choose|n: int| #[trigger] is_first_patch(a.infos, tag, n) && a.infos[n] == info;
            assert(is_first_patch(a.infos, tag, n));
            match info.chunk {
                Some(c) => {},
                None => {
                    assert forall|m: int| #[trigger] is_first_patch(a.infos, tag, m) implies a.infos[m].chunk is None by {
                        lemma_first_is_one(a.infos, tag, n, m);
                    }
                    assert(lacks_patch(a, tag));
                },
            }
        },
        None => {
            assert(lacks_patch(a, tag));
        },
    }
    assert forall|j: int| 0 <= j < r.assets.len() implies comes_from_patches(
        patches,
        tag,
        mains,
        #[trigger] r.assets[j],
    ) || comes_from_mains(mains, r.assets[j]) by {
        if j < s.assets.len() {
            assert(r.assets[j] == s.assets[j]);
        } else {
            let t = r.assets[j];
            match info_from(a.infos, tag, 0) {
                Some(info) => match info.chunk {
                    Some(c) => {
                        let n = choose|n: int| #[trigger]
                            is_first_patch(a.infos, tag, n) && a.infos[n] == info;
                        assert(made_from(t, a, c, field));
                        assert(comes_from_patch(a, tag, field, t));
                    },
                    None => {
                        assert(made_whole(t, a.name, a.size as int, a.md5, field));
                    },
                },
                None => {
                    assert(made_whole(t, a.name, a.size as int, a.md5, field));
                },
            }
            assert(patches[p].manifest.assets[k] == a);
        }
    }
    assert forall|i: int| 0 <= i < r.chunks.len() implies is_patch_file(
        patches,
        tag,
        #[trigger] r.chunks[i],
    ) by {
        if i < s.chunks.len() {
            assert(r.chunks[i] == s.chunks[i]);
        } else {
            let x = r.chunks[i];
            assert(holds_piece(
                patches[p].manifest.assets[k],
                tag,
                x.patch_name,
                x.patch_size as int,
                x.patch_md5,
            ));
        }
    }
}

proof fn lemma_assets_sourced(
    s: PlanView,
    patches: Seq<PatchResultView>,
    tag: Seq<char>,
    mains: Seq<MainView>,
    p: int,
    n: int,
)
    requires
        0 <= p < patches.len(),
        0 <= n <= patches[p].manifest.assets.len(),
        sourced(s, patches, tag, mains),
    ensures
        sourced(
            after_assets(
                s,
                patches[p].manifest.assets,
                patches[p].field,
                tag,
                has_main_field(mains, patches[p].field),
                n,
            ),
            patches,
            tag,
            mains,
        ),
    decreases n,
{
    if n > 0 {
        lemma_assets_sourced(s, patches, tag, mains, p, n - 1);
        lemma_asset_sourced(
            after_assets(
                s,
                patches[p].manifest.assets,
                patches[p].field,
                tag,
                has_main_field(mains, patches[p].field),
                n - 1,
            ),
            patches,
            tag,
            mains,
            p,
            n - 1,
        );
    }
}

proof fn lemma_files_sourced(
    s: PlanView,
    patches: Seq<PatchResultView>,
    tag: Seq<char>,
    mains: Seq<MainView>,
    files: Seq<Seq<char>>,
    n: int,
)
    requires
        0 <= n <= files.len(),
        sourced(s, patches, tag, mains),
        forall|i: int| 0 <= i < files.len() ==> is_unused(patches, tag, #[trigger] files[i]),
    ensures
        sourced(after_files(s, files, n), patches, tag, mains),
    decreases n,
{
    if n > 0 {
        lemma_files_sourced(s, patches, tag, mains, files, n - 1);
        let b = after_files(s, files, n - 1);
        let r = after_files(s, files, n);
        assert forall|i: int| 0 <= i < r.deleted.len() implies is_unused(
            patches,
            tag,
            #[trigger] r.deleted[i],
        ) by {
            if i < b.deleted.len() {
                assert(r.deleted[i] == b.deleted[i]);
            } else {
                assert(r.deleted[i] == files[n - 1]);
            }
        }
    }
}

proof fn lemma_groups_sourced(
    s: PlanView,
    patches: Seq<PatchResultView>,
    tag: Seq<char>,
    mains: Seq<MainView>,
    p: int,
    u: int,
    n: int,
)
    requires
        0 <= p < patches.len(),
        0 <= u < patches[p].manifest.unused.len(),
        0 <= n <= patches[p].manifest.unused[u].groups.len(),
        same_ignoring_case(patches[p].manifest.unused[u].version_tag, tag),
        sourced(s, patches, tag, mains),
    ensures
        sourced(after_groups(s, patches[p].manifest.unused[u].groups, n), patches, tag, mains),
    decreases n,
{
    if n > 0 {
        lemma_groups_sourced(s, patches, tag, mains, p, u, n - 1);
        let groups = patches[p].manifest.unused[u].groups;
        let files = groups[n - 1];
        assert forall|i: int| 0 <= i < files.len() implies is_unused(patches, tag, #[trigger] files[i]) by {
            assert(groups[n - 1][i] == files[i]);
            assert(lists_unused(patches[p].manifest.unused[u], files[i]));
        }
        lemma_files_sourced(
            after_groups(s, groups, n - 1),
            patches,
            tag,
            mains,
            files,
            files.len() as int,
        );
    }
}

proof fn lemma_unused_sourced(
    s: PlanView,
    patches: Seq<PatchResultView>,
    tag: Seq<char>,
    mains: Seq<MainView>,
    p: int,
    n: int,
)
    requires
        0 <= p < patches.len(),
        0 <= n <= patches[p].manifest.unused.len(),
        sourced(s, patches, tag, mains),
    ensures
        sourced(after_unused(s, patches[p].manifest.unused, tag, n), patches, tag, mains),
    decreases n,
{
    if n > 0 {
        lemma_unused_sourced(s, patches, tag, mains, p, n - 1);
        let unused = patches[p].manifest.unused;
        if same_ignoring_case(unused[n - 1].version_tag, tag) {
            lemma_groups_sourced(
                after_unused(s, unused, tag, n - 1),
                patches,
                tag,
                mains,
                p,
                n - 1,
                unused[n - 1].groups.len() as int,
            );
        }
    }
}

proof fn lemma_patches_sourced(patches: Seq<PatchResultView>, tag: Seq<char>, mains: Seq<MainView>, n: int)
    requires
        0 <= n <= patches.len(),
    ensures
        sourced(after_patches(patches, tag, mains, n), patches, tag, mains),
    decreases n,
{
    if n > 0 {
        lemma_patches_sourced(patches, tag, mains, n - 1);
        let s = after_patches(patches, tag, mains, n - 1);
        let m = patches[n - 1].manifest;
        lemma_assets_sourced(s, patches, tag, mains, n - 1, m.assets.len() as int);
        lemma_unused_sourced(
            after_assets(
                s,
                m.assets,
                patches[n - 1].field,
                tag,
                has_main_field(mains, patches[n - 1].field),
                m.assets.len() as int,
            ),
            patches,
            tag,
            mains,
            n - 1,
            m.unused.len() as int,
        );
    }
}

proof fn lemma_main_sourced(
    s: PlanView,
    patches: Seq<PatchResultView>,
    tag: Seq<char>,
    mains: Seq<MainView>,
    m: int,
    n: int,
)
    requires
        0 <= m < mains.len(),
        0 <= n <= mains[m].assets.len(),
        sourced(s, patches, tag, mains),
    ensures
        sourced(after_main_assets(s, mains[m].assets, mains[m].field, n), patches, tag, mains),
    decreases n,
{
    if n > 0 {
        lemma_main_sourced(s, patches, tag, mains, m, n - 1);
        let b = after_main_assets(s, mains[m].assets, mains[m].field, n - 1);
        let r = after_main_assets(s, mains[m].assets, mains[m].field, n);
        let a = mains[m].assets[n - 1];
        assert forall|j: int| 0 <= j < r.assets.len() implies comes_from_patches(
            patches,
            tag,
            mains,
            #[trigger] r.assets[j],
        ) || comes_from_mains(mains, r.assets[j]) by {
            if j < b.assets.len() {
                assert(r.assets[j] == b.assets[j]);
            } else {
                assert(mains[m].assets[n - 1] == a);
                assert(made_whole(r.assets[j], a.name, a.size as int, a.md5, mains[m].field));
            }
        }
    }
}

proof fn lemma_mains_sourced(
    s: PlanView,
    patches: Seq<PatchResultView>,
    tag: Seq<char>,
    mains: Seq<MainView>,
    n: int,
)
    requires
        0 <= n <= mains.len(),
        sourced(s, patches, tag, mains),
    ensures
        sourced(after_mains(s, mains, n), patches, tag, mains),
    decreases n,
{
    if n > 0 {
        lemma_mains_sourced(s, patches, tag, mains, n - 1);
        lemma_main_sourced(
            after_mains(s, mains, n - 1),
            patches,
            tag,
            mains,
            n - 1,
            mains[n - 1].assets.len() as int,
        );
    }
}

/// Each file of a plan that is patched or copied is a file of a patch manifest,
/// and is to have the size and the checksum that this manifest states for it in
/// the next version; its piece and its original are those of the patch from the
/// installed version. Each file that is downloaded whole is one of a patch
/// manifest without such a patch, or one of the next version. Each patch file is
/// the one of such a piece, and only unused files of the installed version are
/// deleted.
pub proof fn law_plans_follow_the_manifests(
    patches: Seq<PatchResultView>,
    tag: Seq<char>,
    mains: Seq<MainView>,
)
    ensures
        ({
            let w = whole_plan(patches, tag, mains);
            &&& forall|k: int|
                0 <= k < w.assets.len() ==> comes_from_patches(
                    patches,
                    tag,
                    mains,
                    #[trigger] w.assets[k],
                ) || comes_from_mains(mains, w.assets[k])
            &&& forall|i: int|
                0 <= i < w.chunks.len() ==> is_patch_file(patches, tag, #[trigger] w.chunks[i])
            &&& forall|i: int|
                0 <= i < w.deleted.len() ==> is_unused(patches, tag, #[trigger] w.deleted[i])
        }),
{
    lemma_patches_sourced(patches, tag, mains, patches.len() as int);
    lemma_mains_sourced(
        after_patches(patches, tag, mains, patches.len() as int),
        patches,
        tag,
        mains,
        mains.len() as int,
    );
}

/// `r` has all that `s` has.
spec fn extends(s: PlanView, r: PlanView) -> bool {
    &&& s.assets.len() <= r.assets.len()
    &&& forall|i: int| 0 <= i < s.assets.len() ==> #[trigger] r.assets[i] == s.assets[i]
    &&& s.deleted.len() <= r.deleted.len()
    &&& forall|i: int| 0 <= i < s.deleted.len() ==> #[trigger] r.deleted[i] == s.deleted[i]
}

proof fn lemma_assets_extend(
    s: PlanView,
    assets: Seq<PatchedView>,
    field: Seq<char>,
    tag: Seq<char>,
    has_main: bool,
    j: int,
    n: int,
)
    requires
        0 <= j <= n,
    ensures
        extends(
            after_assets(s, assets, field, tag, has_main, j),
            after_assets(s, assets, field, tag, has_main, n),
        ),
    decreases n,
{
    if j < n {
        lemma_assets_extend(s, assets, field, tag, has_main, j, n - 1);
    }
}

proof fn lemma_files_extend(s: PlanView, files: Seq<Seq<char>>, j: int, n: int)
    requires
        0 <= j <= n,
    ensures
        extends(after_files(s, files, j), after_files(s, files, n)),
        after_files(s, files, n).seen == s.seen,
    decreases n,
{
    if j < n {
        lemma_files_extend(s, files, j, n - 1);
    } else if n > 0 {
        lemma_files_extend(s, files, n - 1, n - 1);
    }
}

proof fn lemma_groups_extend(s: PlanView, groups: Seq<Seq<Seq<char>>>, j: int, n: int)
    requires
        0 <= j <= n,
    ensures
        extends(after_groups(s, groups, j), after_groups(s, groups, n)),
        after_groups(s, groups, n).seen == s.seen,
    decreases n,
{
    if n > 0 {
        let files = groups[n - 1];
        lemma_files_extend(after_groups(s, groups, n - 1), files, 0, files.len() as int);
    }
    if j < n {
        lemma_groups_extend(s, groups, j, n - 1);
    } else if n > 0 {
        lemma_groups_extend(s, groups, n - 1, n - 1);
    }
}

proof fn lemma_unused_extend(s: PlanView, unused: Seq<UnusedView>, tag: Seq<char>, j: int, n: int)
    requires
        0 <= j <= n,
    ensures
        extends(after_unused(s, unused, tag, j), after_unused(s, unused, tag, n)),
        after_unused(s, unused, tag, n).seen == s.seen,
    decreases n,
{
    if n > 0 {
        let groups = unused[n - 1].groups;
        lemma_groups_extend(after_unused(s, unused, tag, n - 1), groups, 0, groups.len() as int);
    }
    if j < n {
        lemma_unused_extend(s, unused, tag, j, n - 1);
    } else if n > 0 {
        lemma_unused_extend(s, unused, tag, n - 1, n - 1);
    }
}

proof fn lemma_patches_extend(
    patches: Seq<PatchResultView>,
    tag: Seq<char>,
    mains: Seq<MainView>,
    j: int,
    n: int,
)
    requires
        0 <= j <= n,
    ensures
        extends(after_patches(patches, tag, mains, j), after_patches(patches, tag, mains, n)),
    decreases n,
{
    if j < n {
        lemma_patches_extend(patches, tag, mains, j, n - 1);
        let s = after_patches(patches, tag, mains, n - 1);
        let p = patches[n - 1];
        let m = p.manifest;
        let has_main = has_main_field(mains, p.field);
        let k = m.assets.len() as int;
        lemma_assets_extend(s, m.assets, p.field, tag, has_main, 0, k);
        lemma_unused_extend(
            after_assets(s, m.assets, p.field, tag, has_main, k),
            m.unused,
            tag,
            0,
            m.unused.len() as int,
        );
    }
}

proof fn lemma_main_assets_extend(s: PlanView, assets: Seq<AssetView>, field: Seq<char>, n: int)
    ensures
        extends(s, after_main_assets(s, assets, field, n)),
    decreases n,
{
    if n > 0 {
        lemma_main_assets_extend(s, assets, field, n - 1);
    }
}

proof fn lemma_mains_extend(s: PlanView, mains: Seq<MainView>, n: int)
    ensures
        extends(s, after_mains(s, mains, n)),
    decreases n,
{
    if n > 0 {
        lemma_mains_extend(s, mains, n - 1);
        let m = mains[n - 1];
        lemma_main_assets_extend(
            after_mains(s, mains, n - 1),
            m.assets,
            m.field,
            m.assets.len() as int,
        );
    }
}

/// The plan patches or copies the file out of the piece.
pub open spec fn plans_piece(w: PlanView, a: PatchedView, c: PieceView, field: Seq<char>) -> bool {
    exists|k: int| 0 <= k < w.assets.len() && made_from(#[trigger] w.assets[k], a, c, field)
}

/// The plan downloads the file whole.
pub open spec fn plans_whole(w: PlanView, a: PatchedView, field: Seq<char>) -> bool {
    exists|k: int|
        0 <= k < w.assets.len() && made_whole(
            #[trigger] w.assets[k],
            a.name,
            a.size as int,
            a.md5,
            field,
        )
}

/// The plan once file `k` of the patch manifest at `p` is taken in is a part of
/// the whole plan.
proof fn lemma_step_is_kept(
    patches: Seq<PatchResultView>,
    tag: Seq<char>,
    mains: Seq<MainView>,
    p: int,
    k: int,
)
    requires
        0 <= p < patches.len(),
        0 <= k < patches[p].manifest.assets.len(),
    ensures
        extends(
            after_assets(
                after_patches(patches, tag, mains, p),
                patches[p].manifest.assets,
                patches[p].field,
                tag,
                has_main_field(mains, patches[p].field),
                k + 1,
            ),
            whole_plan(patches, tag, mains),
        ),
{
    let s = after_patches(patches, tag, mains, p);
    let m = patches[p].manifest;
    let field = patches[p].field;
    let has_main = has_main_field(mains, field);
    let n = m.assets.len() as int;
    lemma_assets_extend(s, m.assets, field, tag, has_main, k + 1, n);
    lemma_unused_extend(
        after_assets(s, m.assets, field, tag, has_main, n),
        m.unused,
        tag,
        0,
        m.unused.len() as int,
    );
    assert(after_patches(patches, tag, mains, p + 1) == after_patch(s, patches[p], tag, mains));
    lemma_patches_extend(patches, tag, mains, p + 1, patches.len() as int);
    lemma_mains_extend(
        after_patches(patches, tag, mains, patches.len() as int),
        mains,
        mains.len() as int,
    );
}

/// No file of a patch manifest with sizes that can be is left out of a plan: it is
/// made out of the piece of the first patch from the installed version, and
/// downloaded whole where there is no such piece and the next version has a
/// manifest for its part of the game.
pub proof fn law_patched_files_are_planned(
    patches: Seq<PatchResultView>,
    tag: Seq<char>,
    mains: Seq<MainView>,
    p: int,
    k: int,
)
    requires
        0 <= p < patches.len(),
        0 <= k < patches[p].manifest.assets.len(),
        patches[p].manifest.assets[k].size >= 0,
    ensures
        ({
            let w = whole_plan(patches, tag, mains);
            let a = patches[p].manifest.assets[k];
            let field = patches[p].field;
            &&& forall|n: int| #[trigger]
                is_first_patch(a.infos, tag, n) ==> (a.infos[n].chunk matches Some(c)
                    ==> states_sizes(c) ==> plans_piece(w, a, c, field))
            &&& lacks_patch(a, tag) && is_part(mains, field) ==> plans_whole(w, a, field)
        }),
{
    let w = whole_plan(patches, tag, mains);
    let a = patches[p].manifest.assets[k];
    let field = patches[p].field;
    let has_main = has_main_field(mains, field);
    let start = after_patches(patches, tag, mains, p);
    let s = after_assets(start, patches[p].manifest.assets, field, tag, has_main, k);
    let r = after_assets(start, patches[p].manifest.assets, field, tag, has_main, k + 1);
    assert(r == after_asset(s, a, field, tag, has_main));
    lemma_step_is_kept(patches, tag, mains, p, k);
    lemma_info_from(a.infos, tag, 0);
    let last = s.assets.len() as int;
    assert forall|n: int| #[trigger] is_first_patch(a.infos, tag, n) implies (
    a.infos[n].chunk matches Some(c) ==> states_sizes(c) ==> plans_piece(w, a, c, field)) by {
        let info = info_from(a.infos, tag, 0)->0;
        let m = choose|m: int| #[trigger] is_first_patch(a.infos, tag, m) && a.infos[m] == info;
        lemma_first_is_one(a.infos, tag, n, m);
        if a.infos[n].chunk is Some && states_sizes(a.infos[n].chunk->0) {
            let c = a.infos[n].chunk->0;
            assert(made_from(r.assets[last], a, c, field));
            assert(w.assets[last] == r.assets[last]);
            assert(plans_piece(w, a, c, field));
        }
    }
    if lacks_patch(a, tag) && is_part(mains, field) {
        let i = choose|i: int| 0 <= i < mains.len() && (#[trigger] mains[i]).field == field;
        assert(mains[i].field == field);
        assert(has_main);
        assert(info_from(a.infos, tag, 0) is Some ==> (info_from(a.infos, tag, 0)->0).chunk is None);
        assert(made_whole(r.assets[last], a.name, a.size as int, a.md5, field));
        assert(w.assets[last] == r.assets[last]);
        assert(plans_whole(w, a, field));
    }
}

proof fn lemma_assets_see(
    s: PlanView,
    assets: Seq<PatchedView>,
    field: Seq<char>,
    tag: Seq<char>,
    has_main: bool,
    n: int,
    name: Seq<char>,
)
    requires
        0 <= n <= assets.len(),
        !s.seen.contains(name),
        forall|k: int| 0 <= k < assets.len() ==> (#[trigger] assets[k]).name != name,
    ensures
        !after_assets(s, assets, field, tag, has_main, n).seen.contains(name),
    decreases n,
{
    if n > 0 {
        lemma_assets_see(s, assets, field, tag, has_main, n - 1, name);
        assert(assets[n - 1].name != name);
    }
}

proof fn lemma_patches_see(
    patches: Seq<PatchResultView>,
    tag: Seq<char>,
    mains: Seq<MainView>,
    n: int,
    name: Seq<char>,
)
    requires
        0 <= n <= patches.len(),
        no_patch_names(patches, name),
    ensures
        !after_patches(patches, tag, mains, n).seen.contains(name),
    decreases n,
{
    if n > 0 {
        lemma_patches_see(patches, tag, mains, n - 1, name);
        let s = after_patches(patches, tag, mains, n - 1);
        let p = patches[n - 1];
        let m = p.manifest;
        let has_main = has_main_field(mains, p.field);
        let k = m.assets.len() as int;
        assert forall|i: int| 0 <= i < m.assets.len() implies (#[trigger] m.assets[i]).name != name by {
            assert(patches[n - 1].manifest.assets[i].name != name);
        }
        lemma_assets_see(s, m.assets, p.field, tag, has_main, k, name);
        lemma_unused_extend(
            after_assets(s, m.assets, p.field, tag, has_main, k),
            m.unused,
            tag,
            0,
            m.unused.len() as int,
        );
    }
}

/// A file of the next version that no patch manifest names is downloaded whole.
pub proof fn law_unpatched_files_are_downloaded(
    patches: Seq<PatchResultView>,
    tag: Seq<char>,
    mains: Seq<MainView>,
    m: int,
    k: int,
)
    requires
        0 <= m < mains.len(),
        0 <= k < mains[m].assets.len(),
        no_patch_names(patches, mains[m].assets[k].name),
        names_no_directory(mains, mains[m].assets[k].name),
    ensures
        downloads_whole(whole_plan(patches, tag, mains), mains[m].assets[k].name),
{
    lemma_patches_see(patches, tag, mains, patches.len() as int, mains[m].assets[k].name);
    law_new_files_are_downloaded(patches, tag, mains, m, k);
}

proof fn lemma_file_deleted(s: PlanView, files: Seq<Seq<char>>, i: int)
    requires
        0 <= i < files.len(),
        !s.seen.contains(files[i]),
    ensures
        after_files(s, files, files.len() as int).deleted.contains(files[i]),
{
    lemma_files_extend(s, files, i, i);
    lemma_files_extend(s, files, i + 1, files.len() as int);
    let b = after_files(s, files, i);
    let r = after_files(s, files, i + 1);
    assert(r == b.without(files[i]));
    assert(r.deleted[b.deleted.len() as int] == files[i]);
    assert(after_files(s, files, files.len() as int).deleted[b.deleted.len() as int] == files[i]);
}

/// Every file of the installed version that a patch manifest lists as unused, and
/// that no patch manifest makes anew, is deleted.
pub proof fn law_unused_files_are_deleted(
    patches: Seq<PatchResultView>,
    tag: Seq<char>,
    mains: Seq<MainView>,
    name: Seq<char>,
)
    requires
        is_unused(patches, tag, name),
        no_patch_names(patches, name),
    ensures
        whole_plan(patches, tag, mains).deleted.contains(name),
{
    let (p, u) = choose|p: int, u: int|
        0 <= p < patches.len() && 0 <= u < patches[p].manifest.unused.len() && same_ignoring_case(
            patches[p].manifest.unused[u].version_tag,
            tag,
        ) && lists_unused(#[trigger] patches[p].manifest.unused[u], name);
    let unused = patches[p].manifest.unused;
    let groups = unused[u].groups;
    let (g, i) = choose|g: int, i: int|
        0 <= g < groups.len() && 0 <= i < groups[g].len() && #[trigger] groups[g][i] == name;
    let before = after_patches(patches, tag, mains, p);
    let m = patches[p].manifest;
    let has_main = has_main_field(mains, patches[p].field);
    let s = after_assets(
        before,
        m.assets,
        patches[p].field,
        tag,
        has_main,
        m.assets.len() as int,
    );
    lemma_patches_see(patches, tag, mains, p, name);
    assert forall|k: int| 0 <= k < m.assets.len() implies (#[trigger] m.assets[k]).name != name by {
        assert(patches[p].manifest.assets[k].name != name);
    }
    lemma_assets_see(before, m.assets, patches[p].field, tag, has_main, m.assets.len() as int, name);
    lemma_unused_extend(s, unused, tag, u, u);
    let t = after_unused(s, unused, tag, u);
    lemma_groups_extend(t, groups, g, g);
    let x = after_groups(t, groups, g);
    lemma_file_deleted(x, groups[g], i);
    let y = after_groups(t, groups, g + 1);
    let d = choose|d: int| 0 <= d < y.deleted.len() && y.deleted[d] == name;
    lemma_groups_extend(t, groups, g + 1, groups.len() as int);
    assert(after_unused(s, unused, tag, u + 1).deleted[d] == name);
    lemma_unused_extend(s, unused, tag, u + 1, unused.len() as int);
    assert(after_patches(patches, tag, mains, p + 1).deleted[d] == name);
    lemma_patches_extend(patches, tag, mains, p + 1, patches.len() as int);
    lemma_mains_extend(
        after_patches(patches, tag, mains, patches.len() as int),
        mains,
        mains.len() as int,
    );
    assert(whole_plan(patches, tag, mains).deleted[d] == name);
}

/// A part of the game gets its patch files from the source of its own patch
/// manifest, and of the last where there are several; other parts have no source.
pub proof fn law_parts_keep_their_sources(patches: Seq<PatchResultView>, n: int, field: Seq<char>)
    requires
        0 <= n <= patches.len(),
    ensures
        sources_below(patches, n).dom().contains(field) <==> exists|p: int|
            0 <= p < n && (#[trigger] patches[p]).field == field,
        forall|p: int|
            0 <= p < n && (#[trigger] patches[p]).field == field && (forall|q: int|
                p < q < n ==> (#[trigger] patches[q]).field != field) ==> sources_below(
                patches,
                n,
            )[field] == patches[p].source,
    decreases n,
{
    if n > 0 {
        law_parts_keep_their_sources(patches, n - 1, field);
        let b = sources_below(patches, n - 1);
        if b.dom().contains(field) {
            let p = choose|p: int| 0 <= p < n - 1 && (#[trigger] patches[p]).field == field;
            assert(patches[p].field == field);
        }
        if patches[n - 1].field == field {
            assert(patches[n - 1].field == field);
        }
        assert forall|p: int|
            0 <= p < n && (#[trigger] patches[p]).field == field && (forall|q: int|
                p < q < n ==> (#[trigger] patches[q]).field != field) implies sources_below(
            patches,
            n,
        )[field] == patches[p].source by {
            if p < n - 1 {
                assert(patches[n - 1].field != field);
            }
        }
    }
}

/// The chunks of the next version are served as for the game itself, where one of
/// its manifests is for the game.
pub proof fn law_the_game_is_the_main_source(mains: Seq<MainView>, i: int)
    requires
        0 <= i < mains.len(),
        mains[i].field == "game"@,
        forall|j: int| 0 <= j < i ==> (#[trigger] mains[j]).field != "game"@,
    ensures
        main_source(mains) == mains[i].source,
{
    lemma_game_from(mains, 0, i);
}

proof fn lemma_game_from(mains: Seq<MainView>, j: int, i: int)
    requires
        0 <= j <= i < mains.len(),
        mains[i].field == "game"@,
        forall|k: int| 0 <= k < i ==> (#[trigger] mains[k]).field != "game"@,
    ensures
        game_from(mains, j) == Some(mains[i]),
    decreases i - j,
{
    if j < i {
        assert(mains[j].field != "game"@);
        lemma_game_from(mains, j + 1, i);
    }
}

/// A patch manifest says how a file comes about: it has a patch from the version
/// `tag`, or the next version has a manifest for its part of the game.
pub open spec fn takes_up(a: PatchedView, tag: Seq<char>, part: bool) -> bool {
    part || exists|n: int| is_first_patch(a.infos, tag, n)
}

/// One of the first `n` files of a patch manifest has the name and is taken up.
pub open spec fn takes_up_name(
    assets: Seq<PatchedView>,
    tag: Seq<char>,
    part: bool,
    n: int,
    name: Seq<char>,
) -> bool {
    exists|k: int| 0 <= k < n && (#[trigger] assets[k]).name == name && takes_up(assets[k], tag, part)
}

/// One of the first `n` patch manifests takes up a file of that name.
pub open spec fn is_taken_up(
    patches: Seq<PatchResultView>,
    tag: Seq<char>,
    mains: Seq<MainView>,
    n: int,
    name: Seq<char>,
) -> bool {
    exists|p: int|
        0 <= p < n && takes_up_name(
            (#[trigger] patches[p]).manifest.assets,
            tag,
            is_part(mains, patches[p].field),
            patches[p].manifest.assets.len() as int,
            name,
        )
}

/// A manifest of the next version has an asset of that name among its first `k`, or
/// one of the first `m` manifests has one.
pub open spec fn is_met_before(mains: Seq<MainView>, m: int, k: int, name: Seq<char>) -> bool {
    exists|i: int, j: int|
        0 <= i < mains.len() && 0 <= j < mains[i].assets.len() && (i < m || (i == m && j < k)) && (
        #[trigger] mains[i].assets[j]).name == name
}

proof fn lemma_assets_seen(
    s: PlanView,
    assets: Seq<PatchedView>,
    field: Seq<char>,
    tag: Seq<char>,
    part: bool,
    n: int,
    name: Seq<char>,
)
    requires
        0 <= n <= assets.len(),
    ensures
        after_assets(s, assets, field, tag, part, n).seen.contains(name) <==> s.seen.contains(name)
            || takes_up_name(assets, tag, part, n, name),
    decreases n,
{
    if n > 0 {
        lemma_assets_seen(s, assets, field, tag, part, n - 1, name);
        let a = assets[n - 1];
        let b = after_assets(s, assets, field, tag, part, n - 1);
        lemma_info_from(a.infos, tag, 0);
        assert(after_asset(b, a, field, tag, part).seen.contains(name) <==> b.seen.contains(name)
            || (a.name == name && takes_up(a, tag, part)));
        if takes_up_name(assets, tag, part, n - 1, name) {
            let k = choose|k: int|
                0 <= k < n - 1 && (#[trigger] assets[k]).name == name && takes_up(
                    assets[k],
                    tag,
                    part,
                );
            assert(assets[k].name == name);
        }
        if a.name == name && takes_up(a, tag, part) {
            assert(assets[n - 1].name == name);
        }
    }
}

proof fn lemma_unused_not_seen(s: PlanView, unused: Seq<UnusedView>, tag: Seq<char>, n: int)
    ensures
        after_unused(s, unused, tag, n).seen == s.seen,
    decreases n,
{
    if n > 0 {
        lemma_unused_not_seen(s, unused, tag, n - 1);
        let u = unused[n - 1];
        lemma_groups_not_seen(after_unused(s, unused, tag, n - 1), u.groups, u.groups.len() as int);
    }
}

proof fn lemma_groups_not_seen(s: PlanView, groups: Seq<Seq<Seq<char>>>, n: int)
    ensures
        after_groups(s, groups, n).seen == s.seen,
    decreases n,
{
    if n > 0 {
        lemma_groups_not_seen(s, groups, n - 1);
        lemma_files_not_seen(after_groups(s, groups, n - 1), groups[n - 1], groups[n - 1].len() as int);
    }
}

proof fn lemma_files_not_seen(s: PlanView, files: Seq<Seq<char>>, n: int)
    ensures
        after_files(s, files, n).seen == s.seen,
    decreases n,
{
    if n > 0 {
        lemma_files_not_seen(s, files, n - 1);
    }
}

proof fn lemma_patches_seen(
    patches: Seq<PatchResultView>,
    tag: Seq<char>,
    mains: Seq<MainView>,
    n: int,
    name: Seq<char>,
)
    requires
        0 <= n <= patches.len(),
    ensures
        after_patches(patches, tag, mains, n).seen.contains(name) <==> is_taken_up(
            patches,
            tag,
            mains,
            n,
            name,
        ),
    decreases n,
{
    if n > 0 {
        lemma_patches_seen(patches, tag, mains, n - 1, name);
        let p = patches[n - 1];
        let b = after_patches(patches, tag, mains, n - 1);
        let part = has_main_field(mains, p.field);
        let m = p.manifest;
        assert(part == is_part(mains, p.field));
        lemma_assets_seen(b, m.assets, p.field, tag, part, m.assets.len() as int, name);
        lemma_unused_not_seen(
            after_assets(b, m.assets, p.field, tag, part, m.assets.len() as int),
            m.unused,
            tag,
            m.unused.len() as int,
        );
        if is_taken_up(patches, tag, mains, n - 1, name) {
            let q = choose|q: int|
                0 <= q < n - 1 && takes_up_name(
                    (#[trigger] patches[q]).manifest.assets,
                    tag,
                    is_part(mains, patches[q].field),
                    patches[q].manifest.assets.len() as int,
                    name,
                );
            assert(patches[q].manifest.assets == patches[q].manifest.assets);
        }
        if takes_up_name(m.assets, tag, part, m.assets.len() as int, name) {
            assert(patches[n - 1] == p);
        }
    }
}

proof fn lemma_main_assets_seen(
    s: PlanView,
    mains: Seq<MainView>,
    m: int,
    k: int,
    name: Seq<char>,
)
    requires
        0 <= m < mains.len(),
        0 <= k <= mains[m].assets.len(),
    ensures
        after_main_assets(after_mains(s, mains, m), mains[m].assets, mains[m].field, k).seen.contains(
            name,
        ) <==> s.seen.contains(name) || is_met_before(mains, m, k, name),
    decreases m, k,
{
    if k > 0 {
        lemma_main_assets_seen(s, mains, m, k - 1, name);
        let a = mains[m].assets[k - 1];
        if is_met_before(mains, m, k - 1, name) {
            let (i, j) = choose|i: int, j: int|
                0 <= i < mains.len() && 0 <= j < mains[i].assets.len() && (i < m || (i == m && j < k
                    - 1)) && (#[trigger] mains[i].assets[j]).name == name;
            assert(mains[i].assets[j].name == name);
        }
        if a.name == name {
            assert(mains[m].assets[k - 1].name == name);
        }
        if is_met_before(mains, m, k, name) && a.name != name {
            let (i, j) = choose|i: int, j: int|
                0 <= i < mains.len() && 0 <= j < mains[i].assets.len() && (i < m || (i == m && j < k))
                    && (#[trigger] mains[i].assets[j]).name == name;
            assert(mains[i].assets[j].name == name);
            assert(is_met_before(mains, m, k - 1, name));
        }
    } else if m > 0 {
        let all = mains[m - 1].assets.len() as int;
        lemma_main_assets_seen(s, mains, m - 1, all, name);
        if is_met_before(mains, m - 1, all, name) {
            let (i, j) = choose|i: int, j: int|
                0 <= i < mains.len() && 0 <= j < mains[i].assets.len() && (i < m - 1 || (i == m - 1
                    && j < all)) && (#[trigger] mains[i].assets[j]).name == name;
            assert(mains[i].assets[j].name == name);
        }
        if is_met_before(mains, m, 0, name) {
            let (i, j) = choose|i: int, j: int|
                0 <= i < mains.len() && 0 <= j < mains[i].assets.len() && (i < m || (i == m && j < 0))
                    && (#[trigger] mains[i].assets[j]).name == name;
            assert(mains[i].assets[j].name == name);
        }
    } else {
        assert(!is_met_before(mains, 0, 0, name));
    }
}

/// A file of the next version is downloaded whole exactly where no patch manifest
/// says how it comes about and no asset of its name stands before it: the plan then
/// grows by that file, and by nothing otherwise. A file that a patch manifest merely
/// names, without a patch from the installed version and without a manifest of the
/// next version for its part, is not left out on that account.
pub proof fn law_files_are_planned_once(
    patches: Seq<PatchResultView>,
    tag: Seq<char>,
    mains: Seq<MainView>,
    m: int,
    k: int,
)
    requires
        0 <= m < mains.len(),
        0 <= k < mains[m].assets.len(),
    ensures
        ({
            let start = after_patches(patches, tag, mains, patches.len() as int);
            let before = after_main_assets(
                after_mains(start, mains, m),
                mains[m].assets,
                mains[m].field,
                k,
            );
            let then = after_main_assets(
                after_mains(start, mains, m),
                mains[m].assets,
                mains[m].field,
                k + 1,
            );
            let a = mains[m].assets[k];
            if !a.is_directory() && !is_taken_up(patches, tag, mains, patches.len() as int, a.name)
                && !is_met_before(mains, m, k, a.name) {
                &&& then.assets.len() == before.assets.len() + 1
                &&& then.assets.drop_last() == before.assets
                &&& made_whole(then.assets.last(), a.name, a.size as int, a.md5, mains[m].field)
            } else {
                then.assets == before.assets
            }
        }),
{
    let start = after_patches(patches, tag, mains, patches.len() as int);
    let a = mains[m].assets[k];
    lemma_patches_seen(patches, tag, mains, patches.len() as int, a.name);
    lemma_main_assets_seen(start, mains, m, k, a.name);
    let before = after_main_assets(after_mains(start, mains, m), mains[m].assets, mains[m].field, k);
    let t = whole_file(a.name, a.size, a.md5, mains[m].field);
    assert(before.assets.push(t).drop_last() =~= before.assets);
}

/// A file that a patch manifest lists as unused in the installed version is deleted
/// exactly where neither that manifest nor one before it says how the file comes
/// about.
pub proof fn law_files_that_come_about_are_not_deleted(
    patches: Seq<PatchResultView>,
    tag: Seq<char>,
    mains: Seq<MainView>,
    p: int,
    s: PlanView,
    name: Seq<char>,
)
    requires
        0 <= p < patches.len(),
        s.seen == after_assets(
            after_patches(patches, tag, mains, p),
            patches[p].manifest.assets,
            patches[p].field,
            tag,
            has_main_field(mains, patches[p].field),
            patches[p].manifest.assets.len() as int,
        ).seen,
    ensures
        s.without(name).deleted == if is_taken_up(patches, tag, mains, p + 1, name) {
            s.deleted
        } else {
            s.deleted.push(name)
        },
        s.without(name).seen == s.seen,
{
    lemma_patches_seen(patches, tag, mains, p + 1, name);
    let m = patches[p].manifest;
    lemma_unused_not_seen(
        after_assets(
            after_patches(patches, tag, mains, p),
            m.assets,
            patches[p].field,
            tag,
            has_main_field(mains, patches[p].field),
            m.assets.len() as int,
        ),
        m.unused,
        tag,
        m.unused.len() as int,
    );
}

} // verus!

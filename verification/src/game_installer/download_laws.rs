//! What the planned downloads of an installation come to: which chunks are
//! fetched, from which installer, and which files wait for them.

use vstd::prelude::*;
use crate::proto_parse::ChunkView;
use super::compact_manifest::chunks_before;
use super::compact_manifest::lemma_flat_chunks;
use super::download_plan::all_fetched;
use super::download_plan::coherent;
use super::download_plan::empty_plan;
use super::download_plan::item_name;
use super::download_plan::lemma_item_coherent;
use super::download_plan::lemma_used_coherent;
use super::download_plan::DownloadItem;
use super::download_plan::FileEntry;
use super::download_plan::PlanView;
use super::download_state::files_before;
use super::download_state::planned;
use super::download_state::FilesView;
use super::download_state::StateView;
use super::installer::DataView;

verus! {

/// File `f` is one of those that the installer at `i` brings.
pub open spec fn brings(data: Seq<DataView>, i: int, f: int) -> bool {
    0 <= i < data.len() && files_before(data, i) <= f < files_before(data, i + 1)
}

/// The number of the first `k` chunks that are downloaded: the others come from
/// an old file.
pub open spec fn fetched_below(chunks: Seq<ChunkView>, k: int) -> int
    decreases k,
{
    if k <= 0 {
        0
    } else {
        fetched_below(chunks, k - 1) + if chunks[k - 1].old_offset < 0 {
            1int
        } else {
            0int
        }
    }
}

/// Chunk `c` of file `a` is downloaded: the file is not complete, and no old file
/// holds the chunk.
pub open spec fn is_fetched(files: FilesView, a: int, c: int) -> bool {
    &&& 0 <= a < files.all.len()
    &&& 0 <= c < files.all[a].chunks.len()
    &&& !files.completed[a]
    &&& files.all[a].chunks[c].old_offset < 0
}

/// Chunk `c` of file `a` is among the files before `f` or the first `k` chunks of
/// file `f`.
pub open spec fn is_reached(f: int, k: int, a: int, c: int) -> bool {
    a < f || (a == f && c < k)
}

/// An item is a chunk that is downloaded, and the installer that brings its file
/// serves it. It is unpacked at once where no chunk of its file is an old one.
pub open spec fn item_served(files: FilesView, data: Seq<DataView>, item: DownloadItem) -> bool {
    &&& is_fetched(files, item.file_idx as int, item.chunk_idx as int)
    &&& brings(data, item.installer_idx as int, item.file_idx as int)
    &&& item.use_eager == all_fetched(files.all[item.file_idx as int].chunks)
}

/// One of the chunks of a file that are downloaded has the name.
pub open spec fn file_fetches(files: FilesView, a: int, name: Seq<char>) -> bool {
    exists|c: int| #[trigger] is_fetched(files, a, c) && files.all[a].chunks[c].name == name
}

/// An entry is for a file that waits for a chunk of that name, with the directory
/// of the installer that brings the file.
pub open spec fn entry_served(files: FilesView, data: Seq<DataView>, e: FileEntry, name: Seq<char>) -> bool {
    &&& file_fetches(files, e.0 as int, name)
    &&& brings(data, e.1 as int, e.0 as int)
}

/// The plan has an item of that name, for which file `a` waits.
pub open spec fn waits_for(p: PlanView, files: FilesView, name: Seq<char>, a: int) -> bool {
    exists|i: int, j: int|
        0 <= i < p.items.len() && 0 <= j < p.entries[i].len() && item_name(files.all, p.items[i])
            == name && (#[trigger] p.entries[i][j]).0 == a
}

/// An earlier run has downloaded a chunk of that name, under one of the places at
/// which it is listed.
pub open spec fn noted_before(files: FilesView, f: int, k: int, name: Seq<char>) -> bool {
    exists|a: int, c: int|
        #[trigger] is_fetched(files, a, c) && is_reached(f, k, a, c) && files.all[a].chunks[c].name
            == name && files.pre.dom().contains((chunks_before(files.all, a) + c) as u32)
}

/// The plan is right for the files before `f` and the first `k` chunks of file
/// `f`.
spec fn sound(p: PlanView, files: FilesView, data: Seq<DataView>, f: int, k: int) -> bool {
    &&& forall|i: int| 0 <= i < p.items.len() ==> item_served(files, data, #[trigger] p.items[i])
    &&& forall|i: int, j: int|
        0 <= i < p.items.len() && 0 <= j < p.entries[i].len() ==> entry_served(
            files,
            data,
            #[trigger] p.entries[i][j],
            item_name(files.all, p.items[i]),
        )
    &&& forall|a: int, c: int| #[trigger]
        is_fetched(files, a, c) && is_reached(f, k, a, c) ==> waits_for(
            p,
            files,
            files.all[a].chunks[c].name,
            a,
        )
    &&& forall|i: int|
        0 <= i < p.items.len() ==> ((#[trigger] p.items[i]).is_pre_downloaded <==> noted_before(
            files,
            f,
            k,
            item_name(files.all, p.items[i]),
        ))
}

/// There is a flag for each file, the installers bring no more files than there
/// are, and everything can be counted in 32 bits.
pub open spec fn files_fit(files: FilesView, data: Seq<DataView>) -> bool {
    &&& files.completed.len() == files.all.len()
    &&& files.all.len() <= u32::MAX
    &&& data.len() <= u32::MAX
    &&& chunks_before(files.all, files.all.len() as int) <= u32::MAX
    &&& forall|j: int| 0 <= j < data.len() ==> (#[trigger] data[j]).file_count >= 0
    &&& files_before(data, data.len() as int) <= files.all.len()
}

/// One more use of a known chunk keeps the plan right.
proof fn lemma_used_sound(
    p: PlanView,
    files: FilesView,
    data: Seq<DataView>,
    f: int,
    k: int,
    i: int,
    entry: FileEntry,
    is_pre: bool,
)
    requires
        files_fit(files, data),
        coherent(p, files.all),
        is_fetched(files, f, k),
        0 <= i < p.items.len(),
        item_name(files.all, p.items[i]) == files.all[f].chunks[k].name,
        entry.0 == f,
        brings(data, entry.1 as int, f),
        is_pre == files.pre.dom().contains((chunks_before(files.all, f) + k) as u32),
        sound(p, files, data, f, k),
    ensures
        sound(p.used(i, entry, is_pre), files, data, f, k + 1),
        coherent(p.used(i, entry, is_pre), files.all),
{
    let q = p.used(i, entry, is_pre);
    let all = files.all;
    let name = all[f].chunks[k].name;
    lemma_used_coherent(p, all, i, entry, is_pre);
    assert forall|j: int| 0 <= j < q.items.len() implies item_served(files, data, #[trigger] q.items[j]) by {
        assert(item_served(files, data, p.items[j]));
    }
    assert forall|a: int, b: int|
        0 <= a < q.items.len() && 0 <= b < q.entries[a].len() implies entry_served(
        files,
        data,
        #[trigger] q.entries[a][b],
        item_name(all, q.items[a]),
    ) by {
        assert(item_name(all, q.items[a]) == item_name(all, p.items[a]));
        if b < p.entries[a].len() {
            assert(q.entries[a][b] == p.entries[a][b]);
        } else {
            assert(is_fetched(files, f, k));
            assert(file_fetches(files, f, name));
        }
    }
    assert forall|a: int, c: int| #[trigger]
        is_fetched(files, a, c) && is_reached(f, k + 1, a, c) implies waits_for(
        q,
        files,
        all[a].chunks[c].name,
        a,
    ) by {
        if is_reached(f, k, a, c) {
            let (x, y) = choose|x: int, y: int|
                0 <= x < p.items.len() && 0 <= y < p.entries[x].len() && item_name(all, p.items[x])
                    == all[a].chunks[c].name && (#[trigger] p.entries[x][y]).0 == a;
            assert(q.entries[x][y] == p.entries[x][y]);
            assert(item_name(all, q.items[x]) == item_name(all, p.items[x]));
        } else {
            let y = p.entries[i].len() as int;
            assert(q.entries[i][y].0 == f);
        }
    }
    assert forall|j: int|
        0 <= j < q.items.len() implies ((#[trigger] q.items[j]).is_pre_downloaded <==> noted_before(
        files,
        f,
        k + 1,
        item_name(all, q.items[j]),
    )) by {
        let n = item_name(all, p.items[j]);
        assert(item_name(all, q.items[j]) == n);
        assert(p.items[j].is_pre_downloaded <==> noted_before(files, f, k, n));
        if noted_before(files, f, k, n) {
            let (a, c) = choose|a: int, c: int|
                #[trigger] is_fetched(files, a, c) && is_reached(f, k, a, c) && all[a].chunks[c].name
                    == n && files.pre.dom().contains((chunks_before(all, a) + c) as u32);
            assert(is_fetched(files, a, c) && is_reached(f, k + 1, a, c));
        }
        if j == i && is_pre {
            assert(is_fetched(files, f, k) && is_reached(f, k + 1, f, k));
            assert(noted_before(files, f, k + 1, n));
        }
        if noted_before(files, f, k + 1, n) && !noted_before(files, f, k, n) {
            let (a, c) = choose|a: int, c: int|
                #[trigger] is_fetched(files, a, c) && is_reached(f, k + 1, a, c)
                    && all[a].chunks[c].name == n && files.pre.dom().contains(
                    (chunks_before(all, a) + c) as u32,
                );
            assert(a == f && c == k);
            assert(n == name);
            assert(p.index[name] == j && p.index[name] == i);
        }
    }
}

/// A chunk that is met for the first time keeps the plan right.
proof fn lemma_item_sound(
    p: PlanView,
    files: FilesView,
    data: Seq<DataView>,
    f: int,
    k: int,
    item: DownloadItem,
    entry: FileEntry,
)
    requires
        files_fit(files, data),
        entry.0 == f,
        brings(data, entry.1 as int, f),
        coherent(p, files.all),
        is_fetched(files, f, k),
        !p.index.dom().contains(files.all[f].chunks[k].name),
        p.items.len() < u32::MAX,
        item_served(files, data, item),
        item.file_idx == f,
        item.chunk_idx == k,
        item.is_pre_downloaded == files.pre.dom().contains(
            (chunks_before(files.all, f) + k) as u32,
        ),
        sound(p, files, data, f, k),
    ensures
        ({
            let name = files.all[f].chunks[k].name;
            let t = p.with_item(name, item);
            &&& coherent(t, files.all)
            &&& sound(
                t.used(p.items.len() as int, entry, item.is_pre_downloaded),
                files,
                data,
                f,
                k + 1,
            )
        }),
{
    let all = files.all;
    let name = all[f].chunks[k].name;
    let t = p.with_item(name, item);
    let n = p.items.len() as int;
    lemma_item_coherent(p, all, name, item);
    assert forall|a: int, c: int| #[trigger]
        is_fetched(files, a, c) && is_reached(f, k, a, c) implies all[a].chunks[c].name != name by {
        assert(waits_for(p, files, all[a].chunks[c].name, a));
        let (x, y) = choose|x: int, y: int|
            0 <= x < p.items.len() && 0 <= y < p.entries[x].len() && item_name(all, p.items[x])
                == all[a].chunks[c].name && (#[trigger] p.entries[x][y]).0 == a;
        assert(p.index.dom().contains(item_name(all, p.items[x])));
    }
    let is_pre = item.is_pre_downloaded;
    let q = t.used(n, entry, is_pre);
    assert forall|j: int| 0 <= j < q.items.len() implies item_served(
        files,
        data,
        #[trigger] q.items[j],
    ) by {
        if j < n {
            assert(q.items[j] == p.items[j]);
        }
    }
    assert forall|a: int, b: int|
        0 <= a < q.items.len() && 0 <= b < q.entries[a].len() implies entry_served(
        files,
        data,
        #[trigger] q.entries[a][b],
        item_name(all, q.items[a]),
    ) by {
        if a < n {
            assert(q.items[a] == p.items[a]);
            assert(q.entries[a][b] == p.entries[a][b]);
        } else {
            assert(q.entries[a][b] == entry);
            assert(is_fetched(files, f, k));
            assert(file_fetches(files, f, name));
        }
    }
    assert forall|a: int, c: int| #[trigger]
        is_fetched(files, a, c) && is_reached(f, k + 1, a, c) implies waits_for(
        q,
        files,
        all[a].chunks[c].name,
        a,
    ) by {
        if is_reached(f, k, a, c) {
            let (x, y) = choose|x: int, y: int|
                0 <= x < p.items.len() && 0 <= y < p.entries[x].len() && item_name(
                    all,
                    p.items[x],
                ) == all[a].chunks[c].name && (#[trigger] p.entries[x][y]).0 == a;
            assert(q.entries[x][y] == p.entries[x][y]);
            assert(q.items[x] == p.items[x]);
        } else {
            assert(q.entries[n][0].0 == f);
            assert(item_name(all, q.items[n]) == name);
        }
    }
    assert forall|j: int|
        0 <= j < q.items.len() implies ((#[trigger] q.items[j]).is_pre_downloaded
        <==> noted_before(files, f, k + 1, item_name(all, q.items[j]))) by {
        let m = item_name(all, q.items[j]);
        if j < n {
            assert(q.items[j] == p.items[j]);
            assert(p.items[j].is_pre_downloaded <==> noted_before(files, f, k, m));
            assert(p.index.dom().contains(m));
            if noted_before(files, f, k, m) {
                let (a, c) = choose|a: int, c: int|
                    #[trigger] is_fetched(files, a, c) && is_reached(f, k, a, c)
                        && all[a].chunks[c].name == m && files.pre.dom().contains(
                        (chunks_before(all, a) + c) as u32,
                    );
                assert(is_fetched(files, a, c) && is_reached(f, k + 1, a, c));
            }
            if noted_before(files, f, k + 1, m) && !noted_before(files, f, k, m) {
                let (a, c) = choose|a: int, c: int|
                    #[trigger] is_fetched(files, a, c) && is_reached(f, k + 1, a, c)
                        && all[a].chunks[c].name == m && files.pre.dom().contains(
                        (chunks_before(all, a) + c) as u32,
                    );
                assert(a == f && c == k);
            }
        } else {
            assert(m == name);
            if is_pre {
                assert(is_fetched(files, f, k) && is_reached(f, k + 1, f, k));
            }
            if noted_before(files, f, k + 1, m) {
                let (a, c) = choose|a: int, c: int|
                    #[trigger] is_fetched(files, a, c) && is_reached(f, k + 1, a, c)
                        && all[a].chunks[c].name == m && files.pre.dom().contains(
                        (chunks_before(all, a) + c) as u32,
                    );
                assert(!is_reached(f, k, a, c));
                assert(a == f && c == k);
            }
        }
    }
}

/// A chunk that is not downloaded leaves the plan right.
proof fn lemma_skip_sound(p: PlanView, files: FilesView, data: Seq<DataView>, f: int, k: int, g: int, l: int)
    requires
        sound(p, files, data, f, k),
        forall|a: int, c: int| #[trigger]
            is_fetched(files, a, c) ==> (is_reached(f, k, a, c) <==> is_reached(g, l, a, c)),
    ensures
        sound(p, files, data, g, l),
{
    assert forall|i: int|
        0 <= i < p.items.len() implies ((#[trigger] p.items[i]).is_pre_downloaded <==> noted_before(
        files,
        g,
        l,
        item_name(files.all, p.items[i]),
    )) by {
        let n = item_name(files.all, p.items[i]);
        assert(p.items[i].is_pre_downloaded <==> noted_before(files, f, k, n));
        if noted_before(files, f, k, n) {
            let (a, c) = choose|a: int, c: int|
                #[trigger] is_fetched(files, a, c) && is_reached(f, k, a, c)
                    && files.all[a].chunks[c].name == n && files.pre.dom().contains(
                    (chunks_before(files.all, a) + c) as u32,
                );
            assert(is_fetched(files, a, c));
        }
        if noted_before(files, g, l, n) {
            let (a, c) = choose|a: int, c: int|
                #[trigger] is_fetched(files, a, c) && is_reached(g, l, a, c)
                    && files.all[a].chunks[c].name == n && files.pre.dom().contains(
                    (chunks_before(files.all, a) + c) as u32,
                );
            assert(is_fetched(files, a, c));
        }
    }
}

proof fn lemma_chunks_sound(
    p: PlanView,
    files: FilesView,
    data: Seq<DataView>,
    f: int,
    k: int,
    owner: (u32, u32, u32),
)
    requires
        files_fit(files, data),
        coherent(p, files.all),
        sound(p, files, data, f, 0),
        0 <= f < files.all.len(),
        !files.completed[f],
        0 <= k <= files.all[f].chunks.len(),
        owner.0 == owner.1,
        brings(data, owner.0 as int, f),
        p.items.len() + k <= u32::MAX,
    ensures
        ({
            let q = p.with_chunks(files.all, f, k, owner, files.pre);
            &&& coherent(q, files.all)
            &&& sound(q, files, data, f, k)
            &&& q.items.len() <= p.items.len() + k
        }),
    decreases k,
{
    if k > 0 {
        lemma_chunks_sound(p, files, data, f, k - 1, owner);
        let all = files.all;
        let s = p.with_chunks(all, f, k - 1, owner, files.pre);
        let q = p.with_chunks(all, f, k, owner, files.pre);
        let chunk = all[f].chunks[k - 1];
        let entry = (f as u32, owner.0, owner.2);
        let is_pre = files.pre.dom().contains((chunks_before(all, f) + (k - 1)) as u32);
        if chunk.old_offset >= 0 {
            assert(q == s);
            assert(!is_fetched(files, f, k - 1));
            lemma_skip_sound(s, files, data, f, k - 1, f, k);
            assert(sound(q, files, data, f, k));
        } else {
            assert(is_fetched(files, f, k - 1));
            lemma_flat_chunks(all, all.len() as int);
            assert(chunks_before(all, f + 1) <= chunks_before(all, all.len() as int));
            assert(0 <= chunks_before(all, f));
            if s.index.dom().contains(chunk.name) {
                let i = s.index[chunk.name] as int;
                lemma_used_sound(s, files, data, f, k - 1, i, entry, is_pre);
                assert(q == s.used(i, entry, is_pre));
                assert(sound(q, files, data, f, k));
            } else {
                let item = DownloadItem {
                    file_idx: f as u32,
                    chunk_idx: (k - 1) as u32,
                    installer_idx: owner.1,
                    is_pre_downloaded: is_pre,
                    use_eager: all_fetched(all[f].chunks),
                };
                let t = s.with_item(chunk.name, item);
                lemma_item_sound(s, files, data, f, k - 1, item, entry);
                lemma_used_coherent(t, all, s.items.len() as int, entry, is_pre);
                assert(q == t.used(s.items.len() as int, entry, is_pre));
                assert(sound(q, files, data, f, k));
            }
        }
    }
}

/// A file waits for downloads: it is not complete, and not all of its chunks come
/// from an old file.
pub open spec fn is_waiting(files: FilesView, a: int) -> bool {
    !files.completed[a] && fetched_below(files.all[a].chunks, files.all[a].chunks.len() as int) > 0
}

/// The number of the first `n` files that wait for downloads.
pub open spec fn waiting_before(files: FilesView, n: int) -> int
    decreases n,
{
    if n <= 0 {
        0
    } else {
        waiting_before(files, n - 1) + if is_waiting(files, n - 1) {
            1int
        } else {
            0int
        }
    }
}

/// Each file that waits has a place of its own, and misses as many chunks as it
/// has to download.
spec fn placed(p: PlanView, files: FilesView, f: int) -> bool {
    &&& p.pending.len() == waiting_before(files, f)
    &&& forall|i: int, j: int|
        0 <= i < p.entries.len() && 0 <= j < p.entries[i].len() ==> {
            let e = #[trigger] p.entries[i][j];
            e.0 < f && is_waiting(files, e.0 as int) && e.2 == waiting_before(files, e.0 as int)
        }
    &&& forall|a: int|
        0 <= a < f && #[trigger] is_waiting(files, a) ==> p.pending[waiting_before(files, a)]
            == fetched_below(files.all[a].chunks, files.all[a].chunks.len() as int)
}

proof fn lemma_fetched_bounds(chunks: Seq<ChunkView>, j: int, k: int)
    requires
        0 <= j <= k,
    ensures
        0 <= fetched_below(chunks, j) <= fetched_below(chunks, k) <= fetched_below(chunks, j) + (k
            - j),
        fetched_below(chunks, k) <= k,
    decreases k,
{
    if j < k {
        lemma_fetched_bounds(chunks, j, k - 1);
    } else if k > 0 {
        lemma_fetched_bounds(chunks, k - 1, k - 1);
    }
}

proof fn lemma_waiting_bounds(files: FilesView, a: int, n: int)
    requires
        0 <= a <= n,
    ensures
        0 <= waiting_before(files, a) <= waiting_before(files, n) <= n,
        a < n && is_waiting(files, a) ==> waiting_before(files, a) < waiting_before(files, n),
    decreases n,
{
    if a < n {
        lemma_waiting_bounds(files, a, n - 1);
    } else if n > 0 {
        lemma_waiting_bounds(files, n - 1, n - 1);
    }
}

/// What the first `k` chunks of file `f` do to the places and the counts.
proof fn lemma_chunks_placed(
    p: PlanView,
    files: FilesView,
    data: Seq<DataView>,
    f: int,
    k: int,
    owner: (u32, u32, u32),
)
    requires
        files_fit(files, data),
        p.wf(),
        0 <= f < files.all.len(),
        0 <= k <= files.all[f].chunks.len(),
        owner.2 == p.pending.len() - 1,
        p.pending[owner.2 as int] == 0,
    ensures
        ({
            let q = p.with_chunks(files.all, f, k, owner, files.pre);
            &&& q.wf()
            &&& q.pending.len() == p.pending.len()
            &&& forall|x: int|
                0 <= x < p.pending.len() && x != owner.2 ==> #[trigger] q.pending[x] == p.pending[x]
            &&& q.pending[owner.2 as int] == fetched_below(files.all[f].chunks, k)
            &&& q.items.len() >= p.items.len()
            &&& fetched_below(files.all[f].chunks, k) == 0 ==> q.entries == p.entries && q.items
                == p.items
            &&& forall|i: int, j: int|
                0 <= i < q.entries.len() && 0 <= j < q.entries[i].len() ==> ((
                #[trigger] q.entries[i][j] == (f as u32, owner.0, owner.2)) || (i
                    < p.entries.len() && j < p.entries[i].len() && q.entries[i][j]
                    == p.entries[i][j]))
        }),
    decreases k,
{
    if k > 0 {
        lemma_chunks_placed(p, files, data, f, k - 1, owner);
        let all = files.all;
        let s = p.with_chunks(all, f, k - 1, owner, files.pre);
        let q = p.with_chunks(all, f, k, owner, files.pre);
        let chunk = all[f].chunks[k - 1];
        lemma_flat_chunks(all, all.len() as int);
        assert(chunks_before(all, f + 1) <= chunks_before(all, all.len() as int));
        assert(0 <= chunks_before(all, f));
        lemma_fetched_bounds(all[f].chunks, k - 1, k);
        lemma_fetched_bounds(all[f].chunks, 0, k - 1);
        if chunk.old_offset < 0 {
            let i = if s.index.dom().contains(chunk.name) {
                s.index[chunk.name] as int
            } else {
                s.items.len() as int
            };
            assert forall|x: int, y: int|
                0 <= x < q.entries.len() && 0 <= y < q.entries[x].len() implies ((
            #[trigger] q.entries[x][y] == (f as u32, owner.0, owner.2)) || (x < p.entries.len() && y
                < p.entries[x].len() && q.entries[x][y] == p.entries[x][y])) by {
                if x < s.entries.len() && y < s.entries[x].len() {
                    assert(q.entries[x][y] == s.entries[x][y]);
                } else {
                    assert(q.entries[x][y] == (f as u32, owner.0, owner.2));
                }
            }
            assert(q.pending[owner.2 as int] == s.pending[owner.2 as int] + 1);
            assert(q.wf()) by {
                assert forall|n: Seq<char>| #[trigger] q.index.dom().contains(n) implies q.index[n]
                    < q.items.len() by {
                    assert(n != chunk.name ==> s.index.dom().contains(n));
                }
            }
        }
    }
}

proof fn lemma_file_placed(
    p: PlanView,
    files: FilesView,
    data: Seq<DataView>,
    f: int,
    i: u32,
)
    requires
        files_fit(files, data),
        coherent(p, files.all),
        sound(p, files, data, f, 0),
        placed(p, files, f),
        0 <= f < files.all.len(),
        !files.completed[f],
        brings(data, i as int, f),
        p.items.len() <= chunks_before(files.all, f),
    ensures
        ({
            let q = p.with_file(files.all, f, i, i, files.pre);
            &&& coherent(q, files.all)
            &&& sound(q, files, data, f + 1, 0)
            &&& placed(q, files, f + 1)
            &&& q.items.len() <= chunks_before(files.all, f + 1)
            &&& q.pending.len() == p.pending.len() <==> !is_waiting(files, f)
        }),
{
    let all = files.all;
    let n = all[f].chunks.len() as int;
    lemma_waiting_bounds(files, f, f);
    let slot = p.pending.len() as u32;
    let start = PlanView { pending: p.pending.push(0), ..p };
    let owner = (i, i, slot);
    lemma_flat_chunks(all, all.len() as int);
    assert(chunks_before(all, f + 1) <= chunks_before(all, all.len() as int));
    assert(coherent(start, all));
    assert(sound(start, files, data, f, 0));
    lemma_chunks_sound(start, files, data, f, n, owner);
    lemma_chunks_placed(start, files, data, f, n, owner);
    lemma_fetched_bounds(all[f].chunks, 0, n);
    let m = start.with_chunks(all, f, n, owner, files.pre);
    let q = p.with_file(all, f, i, i, files.pre);
    lemma_skip_sound(m, files, data, f, n, f + 1, 0);
    assert(sound(q, files, data, f + 1, 0));
    assert(placed(q, files, f + 1)) by {
        assert forall|x: int, y: int|
            0 <= x < q.entries.len() && 0 <= y < q.entries[x].len() implies {
            let e = #[trigger] q.entries[x][y];
            e.0 < f + 1 && is_waiting(files, e.0 as int) && e.2 == waiting_before(files, e.0 as int)
        } by {
            assert(q.entries[x][y] == m.entries[x][y]);
            if x < p.entries.len() && y < p.entries[x].len() && m.entries[x][y] == p.entries[x][y] {
                assert(p.entries[x][y].0 < f);
            } else {
                assert(m.entries[x][y] == (f as u32, i, slot));
                assert(fetched_below(all[f].chunks, n) != 0);
            }
        }
        assert forall|a: int| 0 <= a < f + 1 && #[trigger] is_waiting(files, a) implies q.pending[waiting_before(
            files,
            a,
        )] == fetched_below(all[a].chunks, all[a].chunks.len() as int) by {
            if a < f {
                lemma_waiting_bounds(files, a, f);
                let x = waiting_before(files, a);
                assert(start.pending[x] == p.pending[x]);
                assert(m.pending[x] == start.pending[x]);
            }
        }
    }
}

proof fn lemma_brings_one(data: Seq<DataView>, i: int, j: int, f: int)
    requires
        forall|k: int| 0 <= k < data.len() ==> (#[trigger] data[k]).file_count >= 0,
        brings(data, i, f),
        brings(data, j, f),
    ensures
        i == j,
{
    if i < j {
        lemma_files_before_grow(data, i + 1, j);
    } else if j < i {
        lemma_files_before_grow(data, j + 1, i);
    }
}

proof fn lemma_files_before_grow(data: Seq<DataView>, i: int, n: int)
    requires
        0 <= i <= n <= data.len(),
        forall|k: int| 0 <= k < data.len() ==> (#[trigger] data[k]).file_count >= 0,
    ensures
        0 <= files_before(data, i) <= files_before(data, n),
    decreases n,
{
    if i < n {
        lemma_files_before_grow(data, i, n - 1);
    } else if n > 0 {
        lemma_files_before_grow(data, n - 1, n - 1);
    }
}

/// A file that is not complete waits for nothing: the installer that brings it can
/// put it together at once.
pub open spec fn is_ready(files: FilesView, data: Seq<DataView>, n: int, x: (usize, usize)) -> bool {
    &&& x.0 < n
    &&& !files.completed[x.0 as int]
    &&& !is_waiting(files, x.0 as int)
    &&& brings(data, x.1 as int, x.0 as int)
}

spec fn state_sound(s: StateView, files: FilesView, data: Seq<DataView>, f: int) -> bool {
    &&& coherent(s.plan, files.all)
    &&& sound(s.plan, files, data, f, 0)
    &&& placed(s.plan, files, f)
    &&& s.plan.items.len() <= chunks_before(files.all, f)
    &&& forall|x: (usize, usize)| #[trigger] s.ready.contains(x) <==> is_ready(files, data, f, x)
}

proof fn lemma_files_sound(
    s: StateView,
    files: FilesView,
    data: Seq<DataView>,
    i: int,
    k: int,
)
    requires
        files_fit(files, data),
        0 <= i < data.len(),
        0 <= k <= data[i].file_count,
        state_sound(s, files, data, files_before(data, i)),
    ensures
        state_sound(
            s.with_files(files, files_before(data, i), k, i),
            files,
            data,
            files_before(data, i) + k,
        ),
    decreases k,
{
    if k > 0 {
        lemma_files_sound(s, files, data, i, k - 1);
        let from = files_before(data, i);
        let b = s.with_files(files, from, k - 1, i);
        let r = s.with_files(files, from, k, i);
        let f = from + k - 1;
        lemma_files_before_grow(data, 0, i);
        lemma_files_before_grow(data, i + 1, data.len() as int);
        assert(files_before(data, i + 1) == from + data[i].file_count);
        assert(brings(data, i, f));
        lemma_flat_chunks(files.all, files.all.len() as int);
        assert(chunks_before(files.all, f) <= chunks_before(files.all, f + 1));
        if files.completed[f] {
            lemma_skip_sound(b.plan, files, data, f, 0, f + 1, 0);
            assert(placed(r.plan, files, f + 1));
        } else {
            lemma_file_placed(b.plan, files, data, f, i as u32);
        }
        assert forall|x: (usize, usize)| #[trigger] r.ready.contains(x) <==> is_ready(
            files,
            data,
            f + 1,
            x,
        ) by {
            let y = (f as usize, i as usize);
            assert(b.ready.contains(x) <==> is_ready(files, data, f, x));
            if b.ready.contains(x) {
                let j = choose|j: int| 0 <= j < b.ready.len() && b.ready[j] == x;
                assert(r.ready[j] == x);
            }
            if r.ready.contains(x) {
                let j = choose|j: int| 0 <= j < r.ready.len() && r.ready[j] == x;
                if j < b.ready.len() {
                    assert(b.ready[j] == x);
                } else {
                    assert(x == y);
                }
            }
            if is_ready(files, data, f + 1, x) && x.0 == f {
                lemma_brings_one(data, x.1 as int, i, f);
                assert(x == y);
                assert(r.ready[b.ready.len() as int] == y);
            }
        }
    }
}

proof fn lemma_planned(files: FilesView, data: Seq<DataView>, i: int)
    requires
        files_fit(files, data),
        0 <= i <= data.len(),
    ensures
        state_sound(planned(files, data, i), files, data, files_before(data, i)),
    decreases i,
{
    if i > 0 {
        lemma_planned(files, data, i - 1);
        lemma_files_sound(
            planned(files, data, i - 1),
            files,
            data,
            i - 1,
            data[i - 1].file_count,
        );
        assert(files_before(data, i) == files_before(data, i - 1) + data[i - 1].file_count);
    } else {
        let s = planned(files, data, i);
        assert(s.plan == empty_plan());
        assert forall|x: (usize, usize)| #[trigger] s.ready.contains(x) <==> is_ready(
            files,
            data,
            0,
            x,
        ) by {}
    }
}

/// The installers bring the files one after the other, each as many as it has.
pub proof fn law_installers_bring_their_files(data: Seq<DataView>, i: int, f: int)
    requires
        forall|k: int| 0 <= k < data.len() ==> (#[trigger] data[k]).file_count >= 0,
        0 <= i < data.len(),
    ensures
        files_before(data, 0) == 0,
        files_before(data, i + 1) - files_before(data, i) == data[i].file_count,
        brings(data, i, f) ==> forall|j: int| #[trigger] brings(data, j, f) ==> j == i,
{
    if brings(data, i, f) {
        assert forall|j: int| #[trigger] brings(data, j, f) implies j == i by {
            lemma_brings_one(data, i, j, f);
        }
    }
}

/// What is planned is what has to be downloaded. Every chunk of a file that is not
/// complete is an item once by its name, unless an old file holds it, and the file
/// waits for it; every item is such a chunk, and is served by the installer that
/// brings its file; every file that waits for an item has such a chunk of that
/// name, and is put together in the directory of the installer that brings it; an
/// item counts as there before exactly where an earlier run has noted one of the
/// chunks of that name.
pub proof fn law_downloads_are_what_is_missing(files: FilesView, data: Seq<DataView>)
    requires
        files_fit(files, data),
    ensures
        ({
            let p = planned(files, data, data.len() as int).plan;
            let n = files_before(data, data.len() as int);
            &&& forall|a: int, c: int|
                a < n && #[trigger] is_fetched(files, a, c) ==> waits_for(
                    p,
                    files,
                    files.all[a].chunks[c].name,
                    a,
                )
            &&& forall|i: int, j: int|
                0 <= i < j < p.items.len() ==> item_name(files.all, #[trigger] p.items[i])
                    != item_name(files.all, #[trigger] p.items[j])
            &&& forall|i: int|
                0 <= i < p.items.len() ==> item_served(files, data, #[trigger] p.items[i])
            &&& p.entries.len() == p.items.len()
            &&& forall|i: int, j: int|
                0 <= i < p.items.len() && 0 <= j < p.entries[i].len() ==> entry_served(
                    files,
                    data,
                    #[trigger] p.entries[i][j],
                    item_name(files.all, p.items[i]),
                )
            &&& forall|i: int|
                0 <= i < p.items.len() ==> ((#[trigger] p.items[i]).is_pre_downloaded
                    <==> noted_before(files, n, 0, item_name(files.all, p.items[i])))
        }),
{
    lemma_planned(files, data, data.len() as int);
    let p = planned(files, data, data.len() as int).plan;
    let all = files.all;
    assert forall|i: int, j: int| 0 <= i < j < p.items.len() implies item_name(
        all,
        #[trigger] p.items[i],
    ) != item_name(all, #[trigger] p.items[j]) by {
        assert(p.index[item_name(all, p.items[i])] == i);
        assert(p.index[item_name(all, p.items[j])] == j);
    }
}

/// Every file that is not complete is accounted for: one without a chunk to
/// download is ready, with the installer that brings it, and no other is; any
/// other has a place of its own among the counts, and misses as many chunks as it
/// has to download.
pub proof fn law_files_wait_for_their_chunks(files: FilesView, data: Seq<DataView>)
    requires
        files_fit(files, data),
    ensures
        ({
            let s = planned(files, data, data.len() as int);
            let p = s.plan;
            let n = files_before(data, data.len() as int);
            &&& forall|x: (usize, usize)| #[trigger]
                s.ready.contains(x) <==> is_ready(files, data, n, x)
            &&& p.pending.len() == waiting_before(files, n)
            &&& forall|i: int, j: int|
                0 <= i < p.entries.len() && 0 <= j < p.entries[i].len() ==> {
                    let e = #[trigger] p.entries[i][j];
                    &&& e.2 < p.pending.len()
                    &&& p.pending[e.2 as int] == fetched_below(
                        files.all[e.0 as int].chunks,
                        files.all[e.0 as int].chunks.len() as int,
                    )
                }
            &&& forall|i: int, j: int, k: int, l: int|
                #![trigger p.entries[i][j], p.entries[k][l]]
                0 <= i < p.entries.len() && 0 <= j < p.entries[i].len() && 0 <= k < p.entries.len()
                    && 0 <= l < p.entries[k].len() ==> (p.entries[i][j].0 == p.entries[k][l].0
                    <==> p.entries[i][j].2 == p.entries[k][l].2)
        }),
{
    lemma_planned(files, data, data.len() as int);
    let p = planned(files, data, data.len() as int).plan;
    let n = files_before(data, data.len() as int);
    lemma_files_before_grow(data, 0, data.len() as int);
    assert forall|i: int, j: int| 0 <= i < p.entries.len() && 0 <= j < p.entries[i].len() implies {
        let e = #[trigger] p.entries[i][j];
        &&& e.2 < p.pending.len()
        &&& p.pending[e.2 as int] == fetched_below(
            files.all[e.0 as int].chunks,
            files.all[e.0 as int].chunks.len() as int,
        )
    } by {
        let e = p.entries[i][j];
        assert(is_waiting(files, e.0 as int));
        lemma_waiting_bounds(files, e.0 as int, n);
    }
    assert forall|i: int, j: int, k: int, l: int|
        #![trigger p.entries[i][j], p.entries[k][l]]
        0 <= i < p.entries.len() && 0 <= j < p.entries[i].len() && 0 <= k < p.entries.len() && 0
            <= l < p.entries[k].len() implies (p.entries[i][j].0 == p.entries[k][l].0
        <==> p.entries[i][j].2 == p.entries[k][l].2) by {
        let a = p.entries[i][j].0 as int;
        let b = p.entries[k][l].0 as int;
        if a < b {
            lemma_waiting_bounds(files, a, b);
        } else if b < a {
            lemma_waiting_bounds(files, b, a);
        }
    }
}

} // verus!

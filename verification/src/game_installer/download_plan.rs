//! Which chunks are downloaded, and which files wait for them.

use vstd::prelude::*;
use crate::collections::new_name_map;
use crate::collections::number_at;
use crate::collections::numbers;
use crate::collections::put_number;
use crate::collections::size_at;
use crate::collections::sizes_of;
use crate::collections::IndexMap;
use crate::collections::NameMap;
use crate::proto_parse::AssetView;
use crate::proto_parse::ChunkView;
use super::compact_manifest::chunks_before;
use super::compact_manifest::CompactManifest;

verus! {

/// A chunk that is downloaded: where it is listed, which installer serves it,
/// whether an earlier run has downloaded it, and whether it is unpacked at once.
#[derive(PartialEq, Eq, Structural, Clone, Copy, Debug)]
pub struct DownloadItem {
    pub file_idx: u32,
    pub chunk_idx: u32,
    pub installer_idx: u32,
    pub is_pre_downloaded: bool,
    pub use_eager: bool,
}

/// A file that waits for a chunk: the file, its temporary directory, and its
/// place among the counts of missing chunks.
pub type FileEntry = (u32, u32, u32);

/// The chunks to download, the files that wait for each, how often each is used,
/// and how many chunks each file still misses.
pub struct DownloadPlan {
    pub items: Vec<DownloadItem>,
    pub entries: Vec<Vec<FileEntry>>,
    pub refcounts: Vec<u32>,
    pub pending: Vec<u32>,
    pub index: NameMap,
}

/// What a plan says.
#[verifier::ext_equal]
pub ghost struct PlanView {
    pub items: Seq<DownloadItem>,
    pub entries: Seq<Seq<FileEntry>>,
    pub refcounts: Seq<u32>,
    pub pending: Seq<u32>,
    pub index: Map<Seq<char>, u64>,
}

/// The entries of each of some lists.
pub open spec fn entry_views(v: Seq<Vec<FileEntry>>) -> Seq<Seq<FileEntry>> {
    v.map_values(|e: Vec<FileEntry>| e@)
}

impl View for DownloadPlan {
    type V = PlanView;

    open spec fn view(&self) -> PlanView {
        PlanView {
            items: self.items@,
            entries: entry_views(self.entries@),
            refcounts: self.refcounts@,
            pending: self.pending@,
            index: numbers(self.index),
        }
    }
}

/// The number after `x`, from the start again behind the last.
pub open spec fn next_count(x: u32) -> u32 {
    if x == u32::MAX {
        0
    } else {
        (x + 1) as u32
    }
}

impl PlanView {
    /// Each chunk has its files and its count, and the index leads to a chunk.
    pub open spec fn wf(self) -> bool {
        &&& self.entries.len() == self.items.len()
        &&& self.refcounts.len() == self.items.len()
        &&& forall|n: Seq<char>|
            #[trigger] self.index.dom().contains(n) ==> self.index[n] < self.items.len()
    }

    /// The plan with one more use of the chunk at `i`.
    pub open spec fn used(self, i: int, entry: FileEntry, is_pre: bool) -> PlanView {
        PlanView {
            items: if is_pre {
                self.items.update(i, DownloadItem { is_pre_downloaded: true, ..self.items[i] })
            } else {
                self.items
            },
            entries: self.entries.update(i, self.entries[i].push(entry)),
            refcounts: self.refcounts.update(i, next_count(self.refcounts[i])),
            pending: self.pending.update(
                entry.2 as int,
                next_count(self.pending[entry.2 as int]),
            ),
            index: self.index,
        }
    }

    /// The plan with a chunk that no file waits for yet.
    pub open spec fn with_item(self, name: Seq<char>, item: DownloadItem) -> PlanView {
        PlanView {
            items: self.items.push(item),
            entries: self.entries.push(Seq::empty()),
            refcounts: self.refcounts.push(0),
            pending: self.pending,
            index: self.index.insert(name, self.items.len() as u64),
        }
    }

    /// The plan with chunk `c` of file `f`. A chunk that the old file holds is
    /// not downloaded; a name is downloaded once.
    pub open spec fn with_chunk(
        self,
        all: Seq<AssetView>,
        f: int,
        c: int,
        owner: (u32, u32, u32),
        pre: Map<u32, u64>,
    ) -> PlanView {
        let chunk = all[f].chunks[c];
        let (dir, installer, slot) = owner;
        let is_pre = pre.dom().contains((chunks_before(all, f) + c) as u32);
        if chunk.old_offset >= 0 {
            self
        } else if self.index.dom().contains(chunk.name) {
            self.used(self.index[chunk.name] as int, (f as u32, dir, slot), is_pre)
        } else {
            self.with_item(
                chunk.name,
                DownloadItem {
                    file_idx: f as u32,
                    chunk_idx: c as u32,
                    installer_idx: installer,
                    is_pre_downloaded: is_pre,
                    use_eager: all_fetched(all[f].chunks),
                },
            ).used(self.items.len() as int, (f as u32, dir, slot), is_pre)
        }
    }

    /// The plan with the first `k` chunks of file `f`.
    pub open spec fn with_chunks(
        self,
        all: Seq<AssetView>,
        f: int,
        k: int,
        owner: (u32, u32, u32),
        pre: Map<u32, u64>,
    ) -> PlanView
        decreases k,
    {
        if k <= 0 {
            self
        } else {
            self.with_chunks(all, f, k - 1, owner, pre).with_chunk(all, f, k - 1, owner, pre)
        }
    }

    /// The plan with file `f`, which waits for those of its chunks that are
    /// downloaded, if there are any.
    pub open spec fn with_file(
        self,
        all: Seq<AssetView>,
        f: int,
        dir: u32,
        installer: u32,
        pre: Map<u32, u64>,
    ) -> PlanView {
        let slot = self.pending.len() as u32;
        let p = PlanView { pending: self.pending.push(0), ..self }.with_chunks(
            all,
            f,
            all[f].chunks.len() as int,
            (dir, installer, slot),
            pre,
        );
        if p.pending[slot as int] == 0 {
            PlanView { pending: p.pending.drop_last(), ..p }
        } else {
            p
        }
    }
}

/// None of the chunks comes from an old file.
pub open spec fn all_fetched(chunks: Seq<ChunkView>) -> bool {
    forall|c: int| 0 <= c < chunks.len() ==> (#[trigger] chunks[c]).old_offset < 0
}

/// Chunks keep a plan in order, and do not shorten it.
proof fn lemma_with_chunks_wf(
    p: PlanView,
    all: Seq<AssetView>,
    f: int,
    k: int,
    owner: (u32, u32, u32),
    pre: Map<u32, u64>,
)
    requires
        p.wf(),
        0 <= k,
        owner.2 < p.pending.len(),
    ensures
        p.with_chunks(all, f, k, owner, pre).wf(),
        p.with_chunks(all, f, k, owner, pre).pending.len() == p.pending.len(),
        p.items.len() <= p.with_chunks(all, f, k, owner, pre).items.len() <= p.items.len() + k,
    decreases k,
{
    if k > 0 {
        lemma_with_chunks_wf(p, all, f, k - 1, owner, pre);
    }
}

fn next_count_of(x: u32) -> (r: u32)
    ensures
        r == next_count(x),
{
    if x == u32::MAX {
        0
    } else {
        x + 1
    }
}

impl DownloadPlan {
    pub fn new() -> (r: Self)
        ensures
            r@ == empty_plan(),
            r@.wf(),
    {
        let r = DownloadPlan {
            items: Vec::new(),
            entries: Vec::new(),
            refcounts: Vec::new(),
            pending: Vec::new(),
            index: new_name_map(),
        };
        assert(r@ =~= empty_plan());
        r
    }

    /// Counts one more use of the chunk at `i`.
    fn use_item(&mut self, i: usize, entry: FileEntry, is_pre: bool)
        requires
            old(self)@.wf(),
            i < old(self)@.items.len(),
            entry.2 < old(self)@.pending.len(),
        ensures
            final(self)@ == old(self)@.used(i as int, entry, is_pre),
    {
        if is_pre {
            let mut item = self.items[i];
            item.is_pre_downloaded = true;
            self.items.set(i, item);
        }
        assert(entry_views(self.entries@)[i as int] == self.entries@[i as int]@);
        let ghost lists = self.entries@;
        let mut list: Vec<FileEntry> = Vec::new();
        std::mem::swap(&mut list, &mut self.entries[i]);
        list.push(entry);
        self.entries.set(i, list);
        let count: u32 = next_count_of(self.refcounts[i]);
        self.refcounts.set(i, count);
        let missing: u32 = next_count_of(self.pending[entry.2 as usize]);
        self.pending.set(entry.2 as usize, missing);
        proof {
            assert(entry_views(self.entries@) =~= entry_views(lists).update(
                i as int,
                entry_views(lists)[i as int].push(entry),
            ));
            assert(self@ =~= old(self)@.used(i as int, entry, is_pre));
        }
    }
}

/// The plan of nothing.
pub open spec fn empty_plan() -> PlanView {
    PlanView {
        items: Seq::empty(),
        entries: Seq::empty(),
        refcounts: Seq::empty(),
        pending: Seq::empty(),
        index: Map::empty(),
    }
}

/// Whether none of the chunks of a file comes from an old file.
fn file_is_eager(all_files: &CompactManifest, file_idx: usize) -> (r: bool)
    requires
        file_idx < all_files@.len(),
    ensures
        r == all_fetched(all_files@[file_idx as int].chunks),
{
    let m: usize = all_files.file_chunk_count(file_idx);
    let mut c: usize = 0;
    while c < m
        invariant
            c <= m,
            file_idx < all_files@.len(),
            m == all_files@[file_idx as int].chunks.len(),
            forall|j: int|
                0 <= j < c ==> (#[trigger] all_files@[file_idx as int].chunks[j]).old_offset < 0,
        decreases m - c,
    {
        let chunk = all_files.file_chunk(file_idx, c);
        if chunk.chunk_old_offset >= 0 {
            assert(all_files@[file_idx as int].chunks[c as int].old_offset >= 0);
            return false;
        }
        c += 1;
    }
    true
}

/// Adds the chunks of a file to the plan, and the file to those that wait, if
/// it has a chunk to wait for.
pub fn register_chunks_for_file(
    plan: &mut DownloadPlan,
    all_files: &CompactManifest,
    file_idx: usize,
    tmp_dir_idx: u32,
    installer_idx: u32,
    pre_downloaded: &IndexMap,
)
    requires
        old(plan)@.wf(),
        all_files.wf(),
        file_idx < all_files@.len(),
        old(plan)@.pending.len() < u32::MAX,
    ensures
        final(plan)@ == old(plan)@.with_file(
            all_files@,
            file_idx as int,
            tmp_dir_idx,
            installer_idx,
            sizes_of(*pre_downloaded),
        ),
        final(plan)@.wf(),
{
    let ghost all = all_files@;
    let ghost pre = sizes_of(*pre_downloaded);
    let eager = file_is_eager(all_files, file_idx);
    let slot: u32 = plan.pending.len() as u32;
    let ghost owner = (tmp_dir_idx, installer_idx, slot);
    plan.pending.push(0);
    let ghost start = plan@;
    assert(start == (PlanView { pending: old(plan)@.pending.push(0), ..old(plan)@ }));
    let (first, _) = all_files.file_chunk_range(file_idx);
    let m: usize = all_files.file_chunk_count(file_idx);
    let mut c: usize = 0;
    while c < m
        invariant
            c <= m,
            all == all_files@,
            all_files.wf(),
            file_idx < all.len(),
            m == all[file_idx as int].chunks.len(),
            first == chunks_before(all, file_idx as int),
            first + m <= u32::MAX,
            pre == sizes_of(*pre_downloaded),
            eager == all_fetched(all[file_idx as int].chunks),
            owner == (tmp_dir_idx, installer_idx, slot),
            start.wf(),
            slot < start.pending.len(),
            slot == start.pending.len() - 1,
            start == (PlanView { pending: old(plan)@.pending.push(0), ..old(plan)@ }),
            plan@.wf(),
            plan@.pending.len() == start.pending.len(),
            plan@ == start.with_chunks(all, file_idx as int, c as int, owner, pre),
        decreases m - c,
    {
        let ghost before = plan@;
        let count: usize = plan.items.len();
        let chunk = all_files.file_chunk(file_idx, c);
        if chunk.chunk_old_offset < 0 {
            let is_pre = size_at(pre_downloaded, first + c as u32).is_some();
            let entry: FileEntry = (file_idx as u32, tmp_dir_idx, slot);
            match number_at(&plan.index, chunk.chunk_name.as_str()) {
                Some(i) => {
                    assert(before.index.dom().contains(chunk@.name));
                    plan.use_item(i as usize, entry, is_pre);
                },
                None => {
                    let i: usize = count;
                    let ghost item = DownloadItem {
                        file_idx: file_idx as u32,
                        chunk_idx: c as u32,
                        installer_idx,
                        is_pre_downloaded: is_pre,
                        use_eager: eager,
                    };
                    plan.items.push(
                        DownloadItem {
                            file_idx: file_idx as u32,
                            chunk_idx: c as u32,
                            installer_idx,
                            is_pre_downloaded: is_pre,
                            use_eager: eager,
                        },
                    );
                    let ghost lists = plan.entries@;
                    plan.entries.push(Vec::new());
                    plan.refcounts.push(0);
                    put_number(&mut plan.index, chunk.chunk_name.clone(), i as u64);
                    proof {
                        assert(entry_views(plan.entries@) =~= entry_views(lists).push(Seq::empty()));
                        assert(plan@ =~= before.with_item(chunk@.name, item));
                        assert(plan@.wf());
                    }
                    plan.use_item(i, entry, is_pre);
                },
            }
        }
        proof {
            lemma_with_chunks_wf(start, all, file_idx as int, c as int + 1, owner, pre);
        }
        c += 1;
    }
    let ghost done = plan@;
    if plan.pending[slot as usize] == 0 {
        let ghost full = plan.pending@;
        plan.pending.pop();
        assert(plan.pending@ =~= full.drop_last());
        assert(plan@ == (PlanView { pending: done.pending.drop_last(), ..done }));
    }
}

/// The name of a chunk that is downloaded.
pub open spec fn item_name(all: Seq<AssetView>, item: DownloadItem) -> Seq<char> {
    all[item.file_idx as int].chunks[item.chunk_idx as int].name
}

/// An item stands for a chunk of a file.
pub open spec fn item_refers(all: Seq<AssetView>, item: DownloadItem) -> bool {
    item.file_idx < all.len() && item.chunk_idx < all[item.file_idx as int].chunks.len()
}

/// Every item stands for a chunk of a file, and the index gives its place for
/// its name, so that no name is downloaded twice.
pub open spec fn coherent(p: PlanView, all: Seq<AssetView>) -> bool {
    &&& p.wf()
    &&& forall|i: int|
        0 <= i < p.items.len() ==> item_refers(all, #[trigger] p.items[i]) && p.index.dom().contains(
            item_name(all, p.items[i]),
        ) && p.index[item_name(all, p.items[i])] == i
    &&& forall|n: Seq<char>| #[trigger]
        p.index.dom().contains(n) ==> item_name(all, p.items[p.index[n] as int]) == n
}

/// The number of entries of a list for `slot`, among the first `k`.
pub open spec fn uses_in(list: Seq<FileEntry>, slot: u32, k: int) -> int
    decreases k,
{
    if k <= 0 {
        0
    } else {
        uses_in(list, slot, k - 1) + if list[k - 1].2 == slot {
            1int
        } else {
            0int
        }
    }
}

/// The number of entries for `slot` in the first `n` lists.
pub open spec fn uses(lists: Seq<Seq<FileEntry>>, slot: u32, n: int) -> int
    decreases n,
{
    if n <= 0 {
        0
    } else {
        uses(lists, slot, n - 1) + uses_in(lists[n - 1], slot, lists[n - 1].len() as int)
    }
}

/// The number of entries in the first `n` lists.
pub open spec fn entry_total(lists: Seq<Seq<FileEntry>>, n: int) -> int
    decreases n,
{
    if n <= 0 {
        0
    } else {
        entry_total(lists, n - 1) + lists[n - 1].len()
    }
}

/// A chunk is counted once for each file that waits for it, and a file misses as
/// many chunks as there are entries for it.
pub open spec fn counted(p: PlanView) -> bool {
    &&& p.wf()
    &&& forall|i: int|
        0 <= i < p.items.len() ==> #[trigger] p.refcounts[i] == p.entries[i].len()
    &&& forall|slot: u32|
        slot < p.pending.len() ==> p.pending[slot as int] == #[trigger] uses(
            p.entries,
            slot,
            p.entries.len() as int,
        )
    &&& forall|slot: u32|
        slot >= p.pending.len() ==> #[trigger] uses(p.entries, slot, p.entries.len() as int) == 0
}

proof fn lemma_uses_bounds(lists: Seq<Seq<FileEntry>>, slot: u32, n: int)
    requires
        0 <= n <= lists.len(),
    ensures
        0 <= uses(lists, slot, n) <= entry_total(lists, n),
        forall|i: int| 0 <= i < n ==> (#[trigger] lists[i]).len() <= entry_total(lists, n),
    decreases n,
{
    if n > 0 {
        lemma_uses_bounds(lists, slot, n - 1);
        lemma_uses_in_bounds(lists[n - 1], slot, lists[n - 1].len() as int);
    }
}

proof fn lemma_uses_in_bounds(list: Seq<FileEntry>, slot: u32, k: int)
    requires
        0 <= k <= list.len(),
    ensures
        0 <= uses_in(list, slot, k) <= k,
    decreases k,
{
    if k > 0 {
        lemma_uses_in_bounds(list, slot, k - 1);
    }
}

proof fn lemma_uses_in_push(list: Seq<FileEntry>, x: FileEntry, slot: u32, k: int)
    requires
        0 <= k <= list.len(),
    ensures
        uses_in(list.push(x), slot, k) == uses_in(list, slot, k),
    decreases k,
{
    if k > 0 {
        lemma_uses_in_push(list, x, slot, k - 1);
    }
}

/// What one more entry does to the counts.
proof fn lemma_uses_update(
    lists: Seq<Seq<FileEntry>>,
    i: int,
    x: FileEntry,
    slot: u32,
    n: int,
)
    requires
        0 <= i < lists.len(),
        0 <= n <= lists.len(),
    ensures
        ({
            let after = lists.update(i, lists[i].push(x));
            &&& uses(after, slot, n) == uses(lists, slot, n) + if i < n && x.2 == slot {
                1int
            } else {
                0int
            }
            &&& entry_total(after, n) == entry_total(lists, n) + if i < n {
                1int
            } else {
                0int
            }
        }),
    decreases n,
{
    if n > 0 {
        lemma_uses_update(lists, i, x, slot, n - 1);
        if i == n - 1 {
            lemma_uses_in_push(lists[i], x, slot, lists[i].len() as int);
        }
    }
}

proof fn lemma_uses_push(lists: Seq<Seq<FileEntry>>, slot: u32, n: int)
    requires
        0 <= n <= lists.len(),
    ensures
        uses(lists.push(Seq::empty()), slot, n) == uses(lists, slot, n),
        entry_total(lists.push(Seq::empty()), n) == entry_total(lists, n),
    decreases n,
{
    if n > 0 {
        lemma_uses_push(lists, slot, n - 1);
    }
}

/// One more use keeps the counts right.
proof fn lemma_used_counted(p: PlanView, i: int, entry: FileEntry, is_pre: bool)
    requires
        counted(p),
        0 <= i < p.items.len(),
        entry.2 < p.pending.len(),
        entry_total(p.entries, p.entries.len() as int) < u32::MAX,
    ensures
        counted(p.used(i, entry, is_pre)),
        entry_total(p.used(i, entry, is_pre).entries, p.entries.len() as int) == entry_total(
            p.entries,
            p.entries.len() as int,
        ) + 1,
{
    let q = p.used(i, entry, is_pre);
    let n = p.entries.len() as int;
    lemma_uses_bounds(p.entries, entry.2, n);
    lemma_uses_update(p.entries, i, entry, entry.2, n);
    assert forall|slot: u32| slot < q.pending.len() implies q.pending[slot as int]
        == #[trigger] uses(q.entries, slot, q.entries.len() as int) by {
        lemma_uses_update(p.entries, i, entry, slot, n);
        assert(p.pending[slot as int] == uses(p.entries, slot, n));
    }
    assert forall|slot: u32| slot >= q.pending.len() implies #[trigger] uses(
        q.entries,
        slot,
        q.entries.len() as int,
    ) == 0 by {
        lemma_uses_update(p.entries, i, entry, slot, n);
        assert(uses(p.entries, slot, n) == 0);
    }
}

proof fn lemma_item_counted(p: PlanView, name: Seq<char>, item: DownloadItem)
    requires
        counted(p),
        p.items.len() < u64::MAX,
    ensures
        counted(p.with_item(name, item)),
        entry_total(p.with_item(name, item).entries, p.entries.len() as int + 1) == entry_total(
            p.entries,
            p.entries.len() as int,
        ),
{
    let q = p.with_item(name, item);
    let n = p.entries.len() as int;
    lemma_uses_push(p.entries, 0, n);
    assert forall|slot: u32| slot < q.pending.len() implies q.pending[slot as int]
        == #[trigger] uses(q.entries, slot, q.entries.len() as int) by {
        lemma_uses_push(p.entries, slot, n);
        assert(p.pending[slot as int] == uses(p.entries, slot, n));
    }
    assert forall|slot: u32| slot >= q.pending.len() implies #[trigger] uses(
        q.entries,
        slot,
        q.entries.len() as int,
    ) == 0 by {
        lemma_uses_push(p.entries, slot, n);
        assert(uses(p.entries, slot, n) == 0);
    }
    assert forall|m: Seq<char>| #[trigger] q.index.dom().contains(m) implies q.index[m]
        < q.items.len() by {
        assert(m != name ==> p.index.dom().contains(m));
    }
}

/// The chunks of a file keep a plan coherent and its counts right.
proof fn lemma_with_chunks_kept(
    p: PlanView,
    all: Seq<AssetView>,
    f: int,
    k: int,
    owner: (u32, u32, u32),
    pre: Map<u32, u64>,
)
    requires
        coherent(p, all),
        counted(p),
        0 <= f < all.len(),
        0 <= k <= all[f].chunks.len(),
        all.len() <= u32::MAX,
        all[f].chunks.len() <= u32::MAX,
        owner.2 < p.pending.len(),
        p.items.len() + k <= u32::MAX,
        entry_total(p.entries, p.entries.len() as int) + k <= u32::MAX,
    ensures
        ({
            let q = p.with_chunks(all, f, k, owner, pre);
            &&& coherent(q, all)
            &&& counted(q)
            &&& q.pending.len() == p.pending.len()
            &&& q.items.len() <= p.items.len() + k
            &&& entry_total(q.entries, q.entries.len() as int) <= entry_total(
                p.entries,
                p.entries.len() as int,
            ) + k
        }),
    decreases k,
{
    if k > 0 {
        lemma_with_chunks_kept(p, all, f, k - 1, owner, pre);
        let s = p.with_chunks(all, f, k - 1, owner, pre);
        let q = p.with_chunks(all, f, k, owner, pre);
        let chunk = all[f].chunks[k - 1];
        let entry = (f as u32, owner.0, owner.2);
        let is_pre = pre.dom().contains((chunks_before(all, f) + (k - 1)) as u32);
        if chunk.old_offset < 0 {
            if s.index.dom().contains(chunk.name) {
                let i = s.index[chunk.name] as int;
                lemma_used_counted(s, i, entry, is_pre);
                lemma_used_coherent(s, all, i, entry, is_pre);
            } else {
                let item = DownloadItem {
                    file_idx: f as u32,
                    chunk_idx: (k - 1) as u32,
                    installer_idx: owner.1,
                    is_pre_downloaded: is_pre,
                    use_eager: all_fetched(all[f].chunks),
                };
                let t = s.with_item(chunk.name, item);
                lemma_item_counted(s, chunk.name, item);
                lemma_item_coherent(s, all, chunk.name, item);
                lemma_used_counted(t, s.items.len() as int, entry, is_pre);
                lemma_used_coherent(t, all, s.items.len() as int, entry, is_pre);
            }
        }
    }
}

pub proof fn lemma_used_coherent(
    p: PlanView,
    all: Seq<AssetView>,
    i: int,
    entry: FileEntry,
    is_pre: bool,
)
    requires
        coherent(p, all),
        0 <= i < p.items.len(),
    ensures
        coherent(p.used(i, entry, is_pre), all),
{
    let q = p.used(i, entry, is_pre);
    assert forall|j: int| 0 <= j < q.items.len() implies item_refers(all, #[trigger] q.items[j])
        && q.index.dom().contains(item_name(all, q.items[j])) && q.index[item_name(all, q.items[j])]
        == j by {
        assert(item_refers(all, p.items[j]));
    }
    assert forall|n: Seq<char>| #[trigger] q.index.dom().contains(n) implies item_name(
        all,
        q.items[q.index[n] as int],
    ) == n by {
        assert(p.index.dom().contains(n));
    }
}

pub proof fn lemma_item_coherent(
    p: PlanView,
    all: Seq<AssetView>,
    name: Seq<char>,
    item: DownloadItem,
)
    requires
        coherent(p, all),
        item_refers(all, item),
        item_name(all, item) == name,
        !p.index.dom().contains(name),
        p.items.len() < u64::MAX,
    ensures
        coherent(p.with_item(name, item), all),
{
    let q = p.with_item(name, item);
    assert forall|m: Seq<char>| #[trigger] q.index.dom().contains(m) implies q.index[m]
        < q.items.len() by {
        assert(m != name ==> p.index.dom().contains(m));
    }
    assert forall|j: int| 0 <= j < q.items.len() implies item_refers(all, #[trigger] q.items[j])
        && q.index.dom().contains(item_name(all, q.items[j])) && q.index[item_name(all, q.items[j])]
        == j by {
        if j < p.items.len() {
            assert(item_refers(all, p.items[j]));
            assert(q.items[j] == p.items[j]);
        }
    }
    assert forall|n: Seq<char>| #[trigger] q.index.dom().contains(n) implies item_name(
        all,
        q.items[q.index[n] as int],
    ) == n by {
        if n != name {
            assert(p.index.dom().contains(n));
            assert(q.items[q.index[n] as int] == p.items[p.index[n] as int]);
        }
    }
}

/// A file keeps a plan coherent and its counts right: every name is downloaded
/// once, each chunk is counted once for each file that waits for it, and a file
/// misses as many chunks as it waits for.
pub proof fn law_counts_are_right(
    p: PlanView,
    all: Seq<AssetView>,
    f: int,
    dir: u32,
    installer: u32,
    pre: Map<u32, u64>,
)
    requires
        coherent(p, all),
        counted(p),
        0 <= f < all.len(),
        all.len() <= u32::MAX,
        all[f].chunks.len() <= u32::MAX,
        p.pending.len() < u32::MAX,
        p.items.len() + all[f].chunks.len() <= u32::MAX,
        entry_total(p.entries, p.entries.len() as int) + all[f].chunks.len() <= u32::MAX,
    ensures
        ({
            let q = p.with_file(all, f, dir, installer, pre);
            &&& coherent(q, all)
            &&& counted(q)
            &&& p.pending.len() <= q.pending.len() <= p.pending.len() + 1
            &&& q.items.len() <= p.items.len() + all[f].chunks.len()
            &&& entry_total(q.entries, q.entries.len() as int) <= entry_total(
                p.entries,
                p.entries.len() as int,
            ) + all[f].chunks.len()
        }),
{
    let slot = p.pending.len() as u32;
    let start = PlanView { pending: p.pending.push(0), ..p };
    let k = all[f].chunks.len() as int;
    assert(counted(start)) by {
        assert forall|s: u32| s < start.pending.len() implies start.pending[s as int]
            == #[trigger] uses(start.entries, s, start.entries.len() as int) by {
            assert(s < p.pending.len() || s == slot);
            assert(uses(p.entries, s, p.entries.len() as int) >= 0);
        }
        assert forall|i: int| 0 <= i < start.items.len() implies #[trigger] start.refcounts[i]
            == start.entries[i].len() by {
            assert(p.refcounts[i] == p.entries[i].len());
        }
    }
    lemma_with_chunks_kept(start, all, f, k, (dir, installer, slot), pre);
    let q = start.with_chunks(all, f, k, (dir, installer, slot), pre);
    let r = p.with_file(all, f, dir, installer, pre);
    assert(uses(q.entries, slot, q.entries.len() as int) == q.pending[slot as int]);
    assert(counted(r)) by {
        assert forall|s: u32| s < r.pending.len() implies r.pending[s as int] == #[trigger] uses(
            r.entries,
            s,
            r.entries.len() as int,
        ) by {
            assert(q.pending[s as int] == uses(q.entries, s, q.entries.len() as int));
        }
        assert forall|s: u32| s >= r.pending.len() implies #[trigger] uses(
            r.entries,
            s,
            r.entries.len() as int,
        ) == 0 by {
            assert(s == slot || s >= q.pending.len());
        }
    }
    assert(coherent(r, all));
}

/// Entries are for files that wait.
pub proof fn lemma_entries_wait(p: PlanView, i: int, j: int)
    requires
        counted(p),
        p.pending.len() <= u32::MAX,
        0 <= i < p.entries.len(),
        0 <= j < p.entries[i].len(),
    ensures
        p.entries[i][j].2 < p.pending.len(),
{
    let slot = p.entries[i][j].2;
    if slot >= p.pending.len() {
        lemma_use_counts(p.entries[i], slot, j, p.entries[i].len() as int);
        lemma_list_counts(p.entries, slot, i, p.entries.len() as int);
        assert(uses(p.entries, slot, p.entries.len() as int) == 0);
    }
}

proof fn lemma_use_counts(list: Seq<FileEntry>, slot: u32, j: int, k: int)
    requires
        0 <= j < k <= list.len(),
        list[j].2 == slot,
    ensures
        uses_in(list, slot, k) >= 1,
    decreases k,
{
    if j < k - 1 {
        lemma_use_counts(list, slot, j, k - 1);
    } else {
        lemma_uses_in_positive(list, slot, k - 1);
    }
}

proof fn lemma_uses_in_positive(list: Seq<FileEntry>, slot: u32, k: int)
    ensures
        uses_in(list, slot, k) >= 0,
    decreases k,
{
    if k > 0 {
        lemma_uses_in_positive(list, slot, k - 1);
    }
}

proof fn lemma_list_counts(lists: Seq<Seq<FileEntry>>, slot: u32, i: int, n: int)
    requires
        0 <= i < n <= lists.len(),
    ensures
        uses(lists, slot, n) >= uses_in(lists[i], slot, lists[i].len() as int),
    decreases n,
{
    lemma_uses_in_positive(lists[n - 1], slot, lists[n - 1].len() as int);
    if i < n - 1 {
        lemma_list_counts(lists, slot, i, n - 1);
    } else {
        lemma_uses_positive(lists, slot, n - 1);
    }
}

proof fn lemma_uses_positive(lists: Seq<Seq<FileEntry>>, slot: u32, n: int)
    ensures
        uses(lists, slot, n) >= 0,
    decreases n,
{
    if n > 0 {
        lemma_uses_positive(lists, slot, n - 1);
        lemma_uses_in_positive(lists[n - 1], slot, lists[n - 1].len() as int);
    }
}

} // verus!

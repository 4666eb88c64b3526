//! The state of the downloads of an installation, out of its files.

use vstd::prelude::*;
use crate::collections::sizes_of;
use crate::collections::IndexMap;
use crate::proto_parse::AssetView;
use super::compact_manifest::chunks_before;
use super::compact_manifest::lemma_flat_chunks;
use super::compact_manifest::CompactManifest;
use super::compact_manifest::StringArena;
use super::download_plan::coherent;
use super::download_plan::counted;
use super::download_plan::empty_plan;
use super::download_plan::entry_total;
use super::download_plan::entry_views;
use super::download_plan::item_name;
use super::download_plan::item_refers;
use super::download_plan::law_counts_are_right;
use super::download_plan::lemma_entries_wait;
use super::download_plan::register_chunks_for_file;
use super::download_plan::uses;
use super::download_plan::DownloadItem;
use super::download_plan::DownloadPlan;
use super::download_plan::FileEntry;
use super::download_plan::PlanView;
use super::installer::data_views;
use super::installer::ChunkNameLookup;
use super::installer::DataView;
use super::installer::InstallerData;

verus! {

/// A plan, and the files that need no download, each with its temporary
/// directory.
pub ghost struct StateView {
    pub plan: PlanView,
    pub ready: Seq<(usize, usize)>,
}

/// The files that the installation takes, and what is known of them: which are
/// complete, and which chunks an earlier run has downloaded.
pub ghost struct FilesView {
    pub all: Seq<AssetView>,
    pub completed: Seq<bool>,
    pub pre: Map<u32, u64>,
}

impl StateView {
    /// The state with file `f` of the installer at `i`. A complete file takes no
    /// download; a file without a chunk to wait for is ready.
    pub open spec fn with_file(self, files: FilesView, f: int, i: int) -> StateView {
        if files.completed[f] {
            self
        } else {
            let plan = self.plan.with_file(files.all, f, i as u32, i as u32, files.pre);
            StateView {
                plan,
                ready: if plan.pending.len() == self.plan.pending.len() {
                    self.ready.push((f as usize, i as usize))
                } else {
                    self.ready
                },
            }
        }
    }

    /// The state with `k` files of the installer at `i`, from file `from` on.
    pub open spec fn with_files(self, files: FilesView, from: int, k: int, i: int) -> StateView
        decreases k,
    {
        if k <= 0 {
            self
        } else {
            self.with_files(files, from, k - 1, i).with_file(files, from + k - 1, i)
        }
    }
}

/// The number of files of the first `i` installers.
pub open spec fn files_before(data: Seq<DataView>, i: int) -> int
    decreases i,
{
    if i <= 0 {
        0
    } else {
        files_before(data, i - 1) + data[i - 1].file_count
    }
}

/// The state with the files of the first `i` installers.
pub open spec fn planned(files: FilesView, data: Seq<DataView>, i: int) -> StateView
    decreases i,
{
    if i <= 0 {
        StateView { plan: empty_plan(), ready: Seq::empty() }
    } else {
        planned(files, data, i - 1).with_files(
            files,
            files_before(data, i - 1),
            data[i - 1].file_count,
            i - 1,
        )
    }
}

/// One of the `k` files from `from` on is not complete.
pub open spec fn any_incomplete(completed: Seq<bool>, from: int, k: int) -> bool {
    exists|j: int| from <= j < from + k && !(#[trigger] completed[j])
}

/// The first `n` lists of entries, one after the other.
pub open spec fn flat_entries(lists: Seq<Seq<FileEntry>>, n: int) -> Seq<FileEntry>
    decreases n,
{
    if n <= 0 {
        Seq::empty()
    } else {
        flat_entries(lists, n - 1) + lists[n - 1]
    }
}

/// The downloads of an installation: the chunks, the files that wait for each in
/// one list with the place at which each chunk's start, how often each chunk is
/// used, how many chunks each file misses, the names of the chunks, the files
/// that are ready, and which installers need a temporary directory.
pub struct DownloadState {
    pub items: Vec<DownloadItem>,
    pub chunk_entries: Vec<FileEntry>,
    pub chunk_entry_offsets: Vec<u32>,
    pub chunk_refcounts: Vec<u32>,
    pub pending_counts: Vec<u32>,
    pub chunk_names: ChunkNameLookup,
    pub ready: Vec<(usize, usize)>,
    pub tmp_dirs: Vec<bool>,
}

impl DownloadState {
    /// The parts fit together: each chunk has its name, its count and its place,
    /// and each entry its file among those that wait.
    pub open spec fn wf(&self) -> bool {
        &&& self.chunk_entry_offsets@.len() == self.items@.len() + 1
        &&& self.chunk_refcounts@.len() == self.items@.len()
        &&& self.chunk_names.wf()
        &&& self.chunk_names@.len() == self.items@.len()
        &&& forall|i: int|
            0 <= i < self.chunk_entry_offsets@.len() ==> #[trigger] self.chunk_entry_offsets@[i]
                <= self.chunk_entries@.len()
        &&& forall|i: int|
            0 <= i < self.chunk_entries@.len() ==> (#[trigger] self.chunk_entries@[i]).2
                < self.pending_counts@.len()
    }

    /// The state says what the plan says.
    pub open spec fn shows(&self, all: Seq<AssetView>, p: PlanView) -> bool {
        &&& self.items@ == p.items
        &&& self.chunk_refcounts@ == p.refcounts
        &&& self.pending_counts@ == p.pending
        &&& self.chunk_entries@ == flat_entries(p.entries, p.entries.len() as int)
        &&& forall|i: int|
            0 <= i <= p.entries.len() ==> #[trigger] self.chunk_entry_offsets@[i] == entry_total(
                p.entries,
                i,
            )
        &&& forall|i: int|
            0 <= i < p.items.len() ==> #[trigger] self.chunk_names@[i] == item_name(
                all,
                p.items[i],
            )
    }
}

/// Whether one of some files is not complete.
fn find_incomplete(completed: &Vec<bool>, from: usize, k: usize) -> (r: bool)
    requires
        from + k <= completed@.len(),
    ensures
        r == any_incomplete(completed@, from as int, k as int),
{
    let n: usize = completed.len();
    let mut j: usize = 0;
    while j < k
        invariant
            j <= k,
            from + k <= n,
            n == completed@.len(),
            forall|i: int| from <= i < from + j ==> #[trigger] completed@[i],
        decreases k - j,
    {
        if !completed[from + j] {
            assert(!completed@[from + j]);
            return true;
        }
        j += 1;
    }
    false
}

/// More installers have no fewer files.
proof fn lemma_files_grow(data: Seq<DataView>, i: int, n: int)
    requires
        0 <= i <= n <= data.len(),
        forall|j: int| 0 <= j < data.len() ==> (#[trigger] data[j]).file_count >= 0,
    ensures
        0 <= files_before(data, i) <= files_before(data, n),
    decreases n,
{
    if i < n {
        lemma_files_grow(data, i, n - 1);
    } else if n > 0 {
        lemma_files_grow(data, n - 1, n - 1);
    }
}

/// Plans the files of all installers.
fn plan_files(
    all_files: &CompactManifest,
    installer_data: &Vec<InstallerData>,
    completed: &Vec<bool>,
    pre_downloaded: &IndexMap,
) -> (r: (DownloadPlan, Vec<(usize, usize)>, Vec<bool>))
    requires
        all_files.wf(),
        completed@.len() == all_files@.len(),
        installer_data@.len() <= u32::MAX,
        files_before(data_views(installer_data@), installer_data@.len() as int)
            <= all_files@.len(),
    ensures
        ({
            let files = FilesView {
                all: all_files@,
                completed: completed@,
                pre: sizes_of(*pre_downloaded),
            };
            let data = data_views(installer_data@);
            let s = planned(files, data, data.len() as int);
            &&& r.0@ == s.plan
            &&& r.1@ == s.ready
            &&& r.2@.len() == data.len()
            &&& forall|i: int|
                0 <= i < data.len() ==> #[trigger] r.2@[i] == any_incomplete(
                    completed@,
                    files_before(data, i),
                    data[i].file_count,
                )
            &&& coherent(s.plan, all_files@)
            &&& counted(s.plan)
            &&& s.plan.items.len() <= u32::MAX
            &&& s.plan.pending.len() <= u32::MAX
            &&& entry_total(s.plan.entries, s.plan.entries.len() as int) <= u32::MAX
        }),
{
    let ghost files = FilesView {
        all: all_files@,
        completed: completed@,
        pre: sizes_of(*pre_downloaded),
    };
    let ghost all = all_files@;
    let ghost data = data_views(installer_data@);
    let ghost n_data = data.len() as int;
    let mut plan = DownloadPlan::new();
    let mut ready: Vec<(usize, usize)> = Vec::new();
    let mut dirs: Vec<bool> = Vec::new();
    let total: usize = all_files.num_files();
    let mut at: usize = 0;
    let mut i: usize = 0;
    proof {
        assert(forall|slot: u32| uses(plan@.entries, slot, 0) == 0);
        assert(counted(plan@));
        assert(coherent(plan@, all));
        lemma_flat_chunks(all, all.len() as int);
        assert forall|j: int| 0 <= j < data.len() implies (#[trigger] data[j]).file_count >= 0 by {
            assert(data[j] == installer_data@[j]@);
        }
    }
    while i < installer_data.len()
        invariant
            i <= installer_data@.len(),
            installer_data@.len() <= u32::MAX,
            all == all_files@,
            all_files.wf(),
            data == data_views(installer_data@),
            n_data == data.len(),
            files == (FilesView {
                all: all_files@,
                completed: completed@,
                pre: sizes_of(*pre_downloaded),
            }),
            completed@.len() == total,
            total == all.len(),
            files_before(data, n_data) <= total,
            forall|j: int| 0 <= j < data.len() ==> (#[trigger] data[j]).file_count >= 0,
            at == files_before(data, i as int),
            dirs@.len() == i,
            forall|j: int|
                0 <= j < i ==> #[trigger] dirs@[j] == any_incomplete(
                    completed@,
                    files_before(data, j),
                    data[j].file_count,
                ),
            (StateView { plan: plan@, ready: ready@ }) == planned(files, data, i as int),
            coherent(plan@, all),
            counted(plan@),
            plan@.pending.len() <= at,
            plan@.items.len() <= chunks_before(all, at as int),
            entry_total(plan@.entries, plan@.entries.len() as int) <= chunks_before(
                all,
                at as int,
            ),
        decreases installer_data@.len() - i,
    {
        let count: usize = installer_data[i].file_count;
        assert(data[i as int].file_count == count);
        proof {
            lemma_files_grow(data, i as int + 1, n_data);
            lemma_files_grow(data, i as int, n_data);
        }
        dirs.push(find_incomplete(completed, at, count));
        let ghost start = StateView { plan: plan@, ready: ready@ };
        let mut k: usize = 0;
        while k < count
            invariant
                k <= count,
                i < installer_data@.len(),
                installer_data@.len() <= u32::MAX,
                at + count <= total,
                all == all_files@,
                all_files.wf(),
                completed@.len() == total,
                total == all.len(),
                files == (FilesView {
                    all: all_files@,
                    completed: completed@,
                    pre: sizes_of(*pre_downloaded),
                }),
                (StateView { plan: plan@, ready: ready@ }) == start.with_files(
                    files,
                    at as int,
                    k as int,
                    i as int,
                ),
                coherent(plan@, all),
                counted(plan@),
                plan@.pending.len() <= at + k,
                plan@.items.len() <= chunks_before(all, at + k),
                entry_total(plan@.entries, plan@.entries.len() as int) <= chunks_before(
                    all,
                    at + k,
                ),
            decreases count - k,
        {
            let f: usize = at + k;
            proof {
                lemma_flat_chunks(all, all.len() as int);
                assert(chunks_before(all, f as int + 1) <= chunks_before(all, all.len() as int));
                assert(chunks_before(all, f as int) >= 0);
            }
            if !completed[f] {
                let waiting: usize = plan.pending.len();
                let ghost before = plan@;
                proof {
                    law_counts_are_right(before, all, f as int, i as u32, i as u32, files.pre);
                }
                register_chunks_for_file(
                    &mut plan,
                    all_files,
                    f,
                    i as u32,
                    i as u32,
                    pre_downloaded,
                );
                if plan.pending.len() == waiting {
                    ready.push((f, i));
                }
            }
            k += 1;
        }
        at = at + count;
        i += 1;
    }
    proof {
        lemma_flat_chunks(all, all.len() as int);
        assert(chunks_before(all, at as int) <= chunks_before(all, all.len() as int));
    }
    (plan, ready, dirs)
}

/// The flat list is as long as all lists together, and its entries are theirs.
proof fn lemma_flat_entries(lists: Seq<Seq<FileEntry>>, n: int)
    requires
        0 <= n <= lists.len(),
    ensures
        flat_entries(lists, n).len() == entry_total(lists, n),
        forall|i: int| 0 <= i <= n ==> 0 <= #[trigger] entry_total(lists, i) <= entry_total(lists, n),
        forall|x: FileEntry| #[trigger]
            flat_entries(lists, n).contains(x) ==> exists|i: int, j: int|
                0 <= i < n && 0 <= j < lists[i].len() && #[trigger] lists[i][j] == x,
    decreases n,
{
    if n > 0 {
        lemma_flat_entries(lists, n - 1);
        assert forall|x: FileEntry| #[trigger] flat_entries(lists, n).contains(x) implies exists|
            i: int,
            j: int,
        | 0 <= i < n && 0 <= j < lists[i].len() && #[trigger] lists[i][j] == x by {
            let head = flat_entries(lists, n - 1);
            let k = choose|k: int|
                0 <= k < flat_entries(lists, n).len() && flat_entries(lists, n)[k] == x;
            if k < head.len() {
                assert(head[k] == x);
                assert(head.contains(x));
            } else {
                assert(lists[n - 1][k - head.len()] == x);
            }
        }
    }
}

/// The entries of a chunk in the flat list are those of its own list.
pub proof fn law_flat_list_keeps_entries(lists: Seq<Seq<FileEntry>>, i: int, n: int)
    requires
        0 <= i < n <= lists.len(),
    ensures
        flat_entries(lists, n).subrange(entry_total(lists, i), entry_total(lists, i + 1))
            == lists[i],
    decreases n,
{
    lemma_flat_entries(lists, n);
    lemma_flat_entries(lists, n - 1);
    if i < n - 1 {
        law_flat_list_keeps_entries(lists, i, n - 1);
        assert(entry_total(lists, i + 1) <= entry_total(lists, n - 1));
        assert(0 <= entry_total(lists, i) <= entry_total(lists, i + 1)) by {
            lemma_flat_entries(lists, i + 1);
        }
        assert(flat_entries(lists, n).subrange(entry_total(lists, i), entry_total(lists, i + 1))
            =~= flat_entries(lists, n - 1).subrange(
            entry_total(lists, i),
            entry_total(lists, i + 1),
        ));
    } else {
        assert(flat_entries(lists, n).subrange(entry_total(lists, i), entry_total(lists, i + 1))
            =~= lists[i]);
    }
}

/// Plans the downloads of an installation.
pub fn build_download_state(
    all_files: &CompactManifest,
    installer_data: &Vec<InstallerData>,
    completed: &Vec<bool>,
    pre_downloaded: &IndexMap,
) -> (r: DownloadState)
    requires
        all_files.wf(),
        completed@.len() == all_files@.len(),
        installer_data@.len() <= u32::MAX,
        files_before(data_views(installer_data@), installer_data@.len() as int)
            <= all_files@.len(),
    ensures
        ({
            let files = FilesView {
                all: all_files@,
                completed: completed@,
                pre: sizes_of(*pre_downloaded),
            };
            let data = data_views(installer_data@);
            let s = planned(files, data, data.len() as int);
            &&& r.wf()
            &&& r.shows(all_files@, s.plan)
            &&& r.ready@ == s.ready
            &&& r.tmp_dirs@.len() == data.len()
            &&& forall|i: int|
                0 <= i < data.len() ==> #[trigger] r.tmp_dirs@[i] == any_incomplete(
                    completed@,
                    files_before(data, i),
                    data[i].file_count,
                )
            &&& coherent(s.plan, all_files@)
            &&& counted(s.plan)
        }),
{
    let (plan, ready, tmp_dirs) = plan_files(all_files, installer_data, completed, pre_downloaded);
    let ghost p = plan@;
    let ghost all = all_files@;
    let ghost lists = p.entries;
    let DownloadPlan { items, entries, refcounts, pending, index: _ } = plan;
    let n: usize = items.len();
    let mut flat: Vec<FileEntry> = Vec::new();
    let mut offsets: Vec<u32> = Vec::new();
    let mut arena = StringArena::new();
    offsets.push(0);
    let mut i: usize = 0;
    while i < n
        invariant
            i <= n,
            n == items@.len(),
            all == all_files@,
            items@ == p.items,
            lists == p.entries,
            lists == entry_views(entries@),
            entries@.len() == n,
            lists.len() == n,
            coherent(p, all),
            entry_total(lists, n as int) <= u32::MAX,
            flat@ == flat_entries(lists, i as int),
            offsets@.len() == i + 1,
            forall|j: int| 0 <= j <= i ==> #[trigger] offsets@[j] == entry_total(lists, j),
            arena@.len() == i,
            forall|j: int| 0 <= j < i ==> #[trigger] arena@[j] == item_name(all, p.items[j]),
        decreases n - i,
    {
        let item: DownloadItem = items[i];
        assert(item_refers(all, p.items[i as int]));
        let ghost names_before = arena@;
        arena.intern(
            all_files.file_chunk(
                item.file_idx as usize,
                item.chunk_idx as usize,
            ).chunk_name.as_str(),
        );
        let mut own: Vec<FileEntry> = vstd::slice::slice_to_vec(entries[i].as_slice());
        assert(lists[i as int] == entries@[i as int]@);
        flat.append(&mut own);
        proof {
            lemma_flat_entries(lists, n as int);
            lemma_flat_entries(lists, i as int + 1);
            assert(entry_total(lists, i as int + 1) <= entry_total(lists, n as int));
        }
        offsets.push(flat.len() as u32);
        i += 1;
    }
    proof {
        lemma_flat_entries(lists, n as int);
        assert forall|k: int| 0 <= k < flat@.len() implies (#[trigger] flat@[k]).2 < pending@.len() by {
            let x = flat@[k];
            assert(flat@.contains(x));
            let (a, b) = choose|a: int, b: int|
                0 <= a < n && 0 <= b < lists[a].len() && #[trigger] lists[a][b] == x;
            lemma_entries_wait(p, a, b);
        }
        assert forall|k: int| 0 <= k < offsets@.len() implies #[trigger] offsets@[k]
            <= flat@.len() by {
            assert(offsets@[k] == entry_total(lists, k));
        }
    }
    DownloadState {
        items,
        chunk_entries: flat,
        chunk_entry_offsets: offsets,
        chunk_refcounts: refcounts,
        pending_counts: pending,
        chunk_names: ChunkNameLookup::from_arena(arena),
        ready,
        tmp_dirs,
    }
}

} // verus!

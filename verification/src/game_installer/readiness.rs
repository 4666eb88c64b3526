//! Telling which files have all their chunks.

use vstd::prelude::*;
use super::download_plan::counted;
use super::download_plan::lemma_entries_wait;
use super::download_plan::uses;
use super::download_plan::uses_in;
use super::download_plan::FileEntry;
use super::download_plan::PlanView;

verus! {

/// The number before `x`, from the end again before zero.
pub open spec fn previous_count(x: u32) -> u32 {
    if x == 0 {
        u32::MAX
    } else {
        (x - 1) as u32
    }
}

/// The counts of missing chunks after the first `k` entries of a chunk that has
/// arrived, and the entries of the files that now miss none.
pub open spec fn arrived(list: Seq<FileEntry>, k: int, pending: Seq<u32>) -> (
    Seq<u32>,
    Seq<FileEntry>,
)
    decreases k,
{
    if k <= 0 {
        (pending, Seq::empty())
    } else {
        let (p, ready) = arrived(list, k - 1, pending);
        let e = list[k - 1];
        let left = p[e.2 as int];
        (
            p.update(e.2 as int, previous_count(left)),
            if left == 1 {
                ready.push(e)
            } else {
                ready
            },
        )
    }
}

/// The files of some entries, each with its temporary directory.
pub open spec fn files_of_entries(ready: Seq<FileEntry>) -> Seq<(usize, usize)> {
    ready.map_values(|e: FileEntry| (e.0 as usize, e.1 as usize))
}

/// The number at `i`, or zero where there is none.
pub open spec fn offset_or_zero(offsets: Seq<u32>, i: int) -> int {
    if 0 <= i < offsets.len() {
        offsets[i] as int
    } else {
        0
    }
}

/// The entries of the chunk at `item_idx`: those between its offset and the next.
pub open spec fn entries_of(entries: Seq<FileEntry>, offsets: Seq<u32>, item_idx: int) -> Seq<
    FileEntry,
> {
    let start = offset_or_zero(offsets, item_idx);
    let end = offset_or_zero(offsets, item_idx + 1);
    if start >= end {
        Seq::empty()
    } else {
        entries.subrange(start, end)
    }
}

/// Takes note that a chunk has arrived, and gives the files that now miss none,
/// each with its temporary directory. A chunk that no file waits for changes
/// nothing.
pub fn notify_assembly_ready(
    item_idx: usize,
    chunk_entries: &Vec<FileEntry>,
    chunk_entry_offsets: &Vec<u32>,
    pending_counts: &mut Vec<u32>,
) -> (r: Vec<(usize, usize)>)
    requires
        item_idx < usize::MAX,
        offset_or_zero(chunk_entry_offsets@, item_idx + 1) <= chunk_entries@.len(),
        forall|i: int|
            0 <= i < chunk_entries@.len() ==> (#[trigger] chunk_entries@[i]).2
                < old(pending_counts)@.len(),
    ensures
        ({
            let list = entries_of(chunk_entries@, chunk_entry_offsets@, item_idx as int);
            let (p, ready) = arrived(list, list.len() as int, old(pending_counts)@);
            &&& final(pending_counts)@ == p
            &&& r@ == files_of_entries(ready)
        }),
{
    let ghost list = entries_of(chunk_entries@, chunk_entry_offsets@, item_idx as int);
    let ghost first = pending_counts@;
    let n: usize = chunk_entry_offsets.len();
    let start: usize = if item_idx < n {
        chunk_entry_offsets[item_idx] as usize
    } else {
        0
    };
    let end: usize = if item_idx + 1 < n {
        chunk_entry_offsets[item_idx + 1] as usize
    } else {
        0
    };
    let mut out: Vec<(usize, usize)> = Vec::new();
    let ghost mut ready: Seq<FileEntry> = Seq::empty();
    assert(out@ =~= files_of_entries(ready));
    if start >= end {
        return out;
    }
    let mut i: usize = start;
    while i < end
        invariant
            start <= i <= end <= chunk_entries@.len(),
            first == old(pending_counts)@,
            list == chunk_entries@.subrange(start as int, end as int),
            forall|k: int|
                0 <= k < chunk_entries@.len() ==> (#[trigger] chunk_entries@[k]).2 < first.len(),
            pending_counts@.len() == first.len(),
            (pending_counts@, ready) == arrived(list, i - start, first),
            out@ == files_of_entries(ready),
        decreases end - i,
    {
        let e: FileEntry = chunk_entries[i];
        assert(list[i - start] == e);
        let left: u32 = pending_counts[e.2 as usize];
        let next: u32 = if left == 0 {
            u32::MAX
        } else {
            left - 1
        };
        pending_counts.set(e.2 as usize, next);
        let ghost before = ready;
        if left == 1 {
            out.push((e.0 as usize, e.1 as usize));
            proof {
                ready = ready.push(e);
                assert(out@ =~= files_of_entries(ready));
            }
        }
        i += 1;
    }
    out
}

/// An arriving chunk takes its uses off the counts, and reports a file once: when
/// it takes the last.
pub proof fn law_arrival_counts_down(list: Seq<FileEntry>, k: int, pending: Seq<u32>, slot: u32)
    requires
        0 <= k <= list.len(),
        slot < pending.len(),
        forall|i: int| 0 <= i < list.len() ==> (#[trigger] list[i]).2 < pending.len(),
        uses_in(list, slot, list.len() as int) <= pending[slot as int],
    ensures
        ({
            let (p, ready) = arrived(list, k, pending);
            &&& p.len() == pending.len()
            &&& p[slot as int] == pending[slot as int] - uses_in(list, slot, k)
            &&& uses_in(ready, slot, ready.len() as int) == if pending[slot as int] > 0
                && p[slot as int] == 0 {
                1int
            } else {
                0int
            }
        }),
    decreases k,
{
    lemma_uses_in_grow(list, slot, k, list.len() as int);
    if k > 0 {
        law_arrival_counts_down(list, k - 1, pending, slot);
        lemma_uses_in_grow(list, slot, k - 1, k);
        let (p, ready) = arrived(list, k - 1, pending);
        let e = list[k - 1];
        if p[e.2 as int] == 1 {
            lemma_uses_in_prefix(ready, e, slot, ready.len() as int);
        }
    }
}

proof fn lemma_uses_in_grow(list: Seq<FileEntry>, slot: u32, i: int, k: int)
    requires
        0 <= i <= k <= list.len(),
    ensures
        0 <= uses_in(list, slot, i) <= uses_in(list, slot, k),
    decreases k,
{
    if i < k {
        lemma_uses_in_grow(list, slot, i, k - 1);
    } else if k > 0 {
        lemma_uses_in_grow(list, slot, k - 1, k - 1);
    }
}

proof fn lemma_uses_in_prefix(list: Seq<FileEntry>, x: FileEntry, slot: u32, k: int)
    requires
        0 <= k <= list.len(),
    ensures
        uses_in(list.push(x), slot, k) == uses_in(list, slot, k),
    decreases k,
{
    if k > 0 {
        lemma_uses_in_prefix(list, x, slot, k - 1);
    }
}

proof fn lemma_uses_in_concat(a: Seq<FileEntry>, b: Seq<FileEntry>, slot: u32, k: int)
    requires
        0 <= k <= b.len(),
    ensures
        uses_in(a + b, slot, a.len() + k) == uses_in(a, slot, a.len() as int) + uses_in(b, slot, k),
    decreases k,
{
    if k > 0 {
        lemma_uses_in_concat(a, b, slot, k - 1);
    } else {
        lemma_uses_in_same(a, a + b, slot, a.len() as int);
    }
}

proof fn lemma_uses_in_same(a: Seq<FileEntry>, b: Seq<FileEntry>, slot: u32, k: int)
    requires
        0 <= k <= a.len() <= b.len(),
        forall|i: int| 0 <= i < a.len() ==> #[trigger] a[i] == b[i],
    ensures
        uses_in(a, slot, k) == uses_in(b, slot, k),
    decreases k,
{
    if k > 0 {
        lemma_uses_in_same(a, b, slot, k - 1);
    }
}

/// The lists of the chunks that have not arrived after the first `k` of `order`.
pub open spec fn outstanding(lists: Seq<Seq<FileEntry>>, order: Seq<int>, k: int) -> Seq<
    Seq<FileEntry>,
>
    decreases k,
{
    if k <= 0 {
        lists
    } else {
        outstanding(lists, order, k - 1).update(order[k - 1], Seq::empty())
    }
}

/// The counts after the first `k` chunks of `order` have arrived, and the entries
/// of all files that were reported.
pub open spec fn all_arrived(
    lists: Seq<Seq<FileEntry>>,
    order: Seq<int>,
    k: int,
    pending: Seq<u32>,
) -> (Seq<u32>, Seq<FileEntry>)
    decreases k,
{
    if k <= 0 {
        (pending, Seq::empty())
    } else {
        let (p, ready) = all_arrived(lists, order, k - 1, pending);
        let list = lists[order[k - 1]];
        let (q, more) = arrived(list, list.len() as int, p);
        (q, ready + more)
    }
}

proof fn lemma_uses_emptied(lists: Seq<Seq<FileEntry>>, i: int, slot: u32, n: int)
    requires
        0 <= i < lists.len(),
        0 <= n <= lists.len(),
    ensures
        uses(lists.update(i, Seq::empty()), slot, n) == uses(lists, slot, n) - if i < n {
            uses_in(lists[i], slot, lists[i].len() as int)
        } else {
            0int
        },
    decreases n,
{
    if n > 0 {
        lemma_uses_emptied(lists, i, slot, n - 1);
    }
}

proof fn lemma_uses_nonnegative(lists: Seq<Seq<FileEntry>>, slot: u32, i: int, n: int)
    requires
        0 <= i < n <= lists.len(),
    ensures
        0 <= uses_in(lists[i], slot, lists[i].len() as int) <= uses(lists, slot, n),
    decreases n,
{
    lemma_uses_in_grow(lists[n - 1], slot, 0, lists[n - 1].len() as int);
    assert(uses(lists, slot, 0) == 0);
    if i < n - 1 {
        lemma_uses_nonnegative(lists, slot, i, n - 1);
    } else if n > 1 {
        lemma_uses_nonnegative(lists, slot, n - 2, n - 1);
        lemma_uses_in_grow(lists[n - 2], slot, 0, lists[n - 2].len() as int);
    }
}

proof fn lemma_outstanding(lists: Seq<Seq<FileEntry>>, order: Seq<int>, k: int)
    requires
        0 <= k <= order.len(),
        forall|j: int| 0 <= j < order.len() ==> 0 <= #[trigger] order[j] < lists.len(),
        order.no_duplicates(),
    ensures
        ({
            let o = outstanding(lists, order, k);
            &&& o.len() == lists.len()
            &&& forall|j: int| k <= j < order.len() ==> o[#[trigger] order[j]] == lists[order[j]]
            &&& forall|j: int| 0 <= j < k ==> o[#[trigger] order[j]] == Seq::<FileEntry>::empty()
        }),
    decreases k,
{
    if k > 0 {
        lemma_outstanding(lists, order, k - 1);
    }
}

/// Whatever the order in which the chunks arrive, a file misses the chunks that
/// have not arrived, and it is reported once: with the last of them.
pub proof fn law_files_are_reported_once(p: PlanView, order: Seq<int>, k: int, slot: u32)
    requires
        counted(p),
        slot < p.pending.len(),
        p.pending.len() <= u32::MAX,
        forall|j: int| 0 <= j < order.len() ==> 0 <= #[trigger] order[j] < p.entries.len(),
        order.no_duplicates(),
        0 <= k <= order.len(),
    ensures
        ({
            let (q, ready) = all_arrived(p.entries, order, k, p.pending);
            let left = uses(outstanding(p.entries, order, k), slot, p.entries.len() as int);
            &&& q.len() == p.pending.len()
            &&& q[slot as int] == left
            &&& left <= p.pending[slot as int]
            &&& uses_in(ready, slot, ready.len() as int) == if p.pending[slot as int] > 0 && left
                == 0 {
                1int
            } else {
                0int
            }
        }),
    decreases k,
{
    let n = p.entries.len() as int;
    lemma_outstanding(p.entries, order, k);
    assert(p.pending[slot as int] == uses(p.entries, slot, n));
    if k > 0 {
        law_files_are_reported_once(p, order, k - 1, slot);
        lemma_outstanding(p.entries, order, k - 1);
        let o = outstanding(p.entries, order, k - 1);
        let i = order[k - 1];
        assert(o[i] == p.entries[i]);
        let list = p.entries[i];
        let (q, ready) = all_arrived(p.entries, order, k - 1, p.pending);
        lemma_uses_emptied(o, i, slot, n);
        lemma_uses_nonnegative(o, slot, i, n);
        assert forall|j: int| 0 <= j < list.len() implies (#[trigger] list[j]).2 < q.len() by {
            lemma_entries_wait(p, i, j);
        }
        law_arrival_counts_down(list, list.len() as int, q, slot);
        let (q2, more) = arrived(list, list.len() as int, q);
        lemma_uses_in_concat(ready, more, slot, more.len() as int);
        lemma_uses_in_grow(list, slot, 0, list.len() as int);
        assert(ready + more == all_arrived(p.entries, order, k, p.pending).1);
    }
}

/// Once every chunk has arrived, every file that waited is reported, and none
/// misses a chunk.
pub proof fn law_all_files_are_reported(p: PlanView, order: Seq<int>, slot: u32)
    requires
        counted(p),
        slot < p.pending.len(),
        p.pending.len() <= u32::MAX,
        forall|j: int| 0 <= j < order.len() ==> 0 <= #[trigger] order[j] < p.entries.len(),
        order.no_duplicates(),
        forall|i: int| 0 <= i < p.entries.len() ==> #[trigger] order.contains(i),
    ensures
        ({
            let (q, ready) = all_arrived(p.entries, order, order.len() as int, p.pending);
            &&& q[slot as int] == 0
            &&& p.pending[slot as int] > 0 ==> uses_in(ready, slot, ready.len() as int) == 1
        }),
{
    let k = order.len() as int;
    law_files_are_reported_once(p, order, k, slot);
    lemma_outstanding(p.entries, order, k);
    let o = outstanding(p.entries, order, k);
    assert forall|i: int| 0 <= i < o.len() implies #[trigger] o[i] == Seq::<FileEntry>::empty() by {
        assert(order.contains(i));
        let j = choose|j: int| 0 <= j < order.len() && order[j] == i;
        assert(o[order[j]] == Seq::<FileEntry>::empty());
    }
    lemma_no_uses(o, slot, o.len() as int);
}

proof fn lemma_no_uses(lists: Seq<Seq<FileEntry>>, slot: u32, n: int)
    requires
        0 <= n <= lists.len(),
        forall|i: int| 0 <= i < lists.len() ==> #[trigger] lists[i] == Seq::<FileEntry>::empty(),
    ensures
        uses(lists, slot, n) == 0,
    decreases n,
{
    if n > 0 {
        lemma_no_uses(lists, slot, n - 1);
        assert(lists[n - 1] == Seq::<FileEntry>::empty());
    }
}

/// What is reported when a chunk arrives are files that waited for it, each with
/// its own temporary directory.
pub proof fn law_reported_files_waited(list: Seq<FileEntry>, k: int, pending: Seq<u32>, i: int)
    requires
        0 <= k <= list.len(),
        0 <= i < arrived(list, k, pending).1.len(),
    ensures
        ({
            let ready = arrived(list, k, pending).1;
            &&& exists|j: int| 0 <= j < k && #[trigger] list[j] == ready[i]
            &&& files_of_entries(ready)[i].0 == ready[i].0
            &&& files_of_entries(ready)[i].1 == ready[i].1
            &&& files_of_entries(ready).len() == ready.len()
        }),
    decreases k,
{
    if k > 0 {
        let b = arrived(list, k - 1, pending).1;
        if i < b.len() {
            law_reported_files_waited(list, k - 1, pending, i);
            let j = choose|j: int| 0 <= j < k - 1 && #[trigger] list[j] == b[i];
            assert(list[j] == arrived(list, k, pending).1[i]);
        } else {
            assert(list[k - 1] == arrived(list, k, pending).1[i]);
        }
    }
}

} // verus!

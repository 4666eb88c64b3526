//! A manifest with an index over its chunks, and lists of names.

use vstd::prelude::*;
use crate::proto_parse::asset_views;
use crate::proto_parse::AssetView;
use crate::proto_parse::ChunkView;
use crate::proto_parse::SophonManifestAssetChunk;
use crate::proto_parse::SophonManifestAssetProperty;
use crate::text::views;

verus! {

/// A list of names.
pub struct StringArena {
    pub entries: Vec<String>,
}

impl View for StringArena {
    type V = Seq<Seq<char>>;

    open spec fn view(&self) -> Seq<Seq<char>> {
        views(self.entries@)
    }
}

impl StringArena {
    pub fn new() -> (r: Self)
        ensures
            r@ == Seq::<Seq<char>>::empty(),
    {
        let r = StringArena { entries: Vec::new() };
        assert(r@ =~= Seq::<Seq<char>>::empty());
        r
    }

    /// Adds a name at the end.
    pub fn intern(&mut self, name: &str)
        ensures
            final(self)@ == old(self)@.push(name@),
    {
        self.entries.push(name.to_owned());
        assert(self@ =~= old(self)@.push(name@));
    }

    /// The number of names.
    pub fn len(&self) -> (r: usize)
        ensures
            r == self@.len(),
    {
        self.entries.len()
    }

    /// The name at `i`.
    pub fn get(&self, i: u32) -> (r: &str)
        requires
            i < self@.len(),
        ensures
            r@ == self@[i as int],
    {
        self.entries[i as usize].as_str()
    }
}

/// The number of chunks of the first `n` assets.
pub open spec fn chunks_before(assets: Seq<AssetView>, n: int) -> int
    decreases n,
{
    if n <= 0 {
        0
    } else {
        chunks_before(assets, n - 1) + assets[n - 1].chunks.len()
    }
}

/// The chunks of the first `n` assets, one asset after the other.
pub open spec fn flat_chunks(assets: Seq<AssetView>, n: int) -> Seq<ChunkView>
    decreases n,
{
    if n <= 0 {
        Seq::empty()
    } else {
        flat_chunks(assets, n - 1) + assets[n - 1].chunks
    }
}

/// All chunks of a manifest.
pub open spec fn all_chunks(assets: Seq<AssetView>) -> Seq<ChunkView> {
    flat_chunks(assets, assets.len() as int)
}

/// The number of chunks grows with the assets.
pub proof fn lemma_flat_chunks(assets: Seq<AssetView>, n: int)
    requires
        0 <= n <= assets.len(),
    ensures
        flat_chunks(assets, n).len() == chunks_before(assets, n),
        forall|f: int|
            0 <= f <= n ==> 0 <= #[trigger] chunks_before(assets, f) <= chunks_before(assets, n),
    decreases n,
{
    if n > 0 {
        lemma_flat_chunks(assets, n - 1);
    }
}

/// The chunks of an asset stand one after the other in the list of all chunks.
pub proof fn lemma_flat_chunk(assets: Seq<AssetView>, n: int, f: int, c: int)
    requires
        0 <= f < n <= assets.len(),
        0 <= c < assets[f].chunks.len(),
    ensures
        0 <= chunks_before(assets, f) + c < chunks_before(assets, n),
        flat_chunks(assets, n)[chunks_before(assets, f) + c] == assets[f].chunks[c],
    decreases n,
{
    lemma_flat_chunks(assets, n);
    lemma_flat_chunks(assets, n - 1);
    if f < n - 1 {
        lemma_flat_chunk(assets, n - 1, f, c);
    }
}

/// A manifest with the place of the first chunk of each asset in the list of all
/// chunks.
pub struct CompactManifest {
    pub assets: Vec<SophonManifestAssetProperty>,
    pub starts: Vec<u32>,
}

impl View for CompactManifest {
    type V = Seq<AssetView>;

    open spec fn view(&self) -> Seq<AssetView> {
        asset_views(self.assets@)
    }
}

impl CompactManifest {
    /// The index fits the assets.
    pub open spec fn wf(&self) -> bool {
        &&& self.starts@.len() == self.assets@.len() + 1
        &&& self.assets@.len() <= u32::MAX
        &&& chunks_before(self@, self@.len() as int) <= u32::MAX
        &&& forall|i: int|
            0 <= i <= self.assets@.len() ==> #[trigger] self.starts@[i] == chunks_before(self@, i)
    }

    /// Indexes some assets. Files and chunks are counted with 32 bits.
    pub fn new(assets: Vec<SophonManifestAssetProperty>) -> (r: Self)
        requires
            assets@.len() <= u32::MAX,
            chunks_before(asset_views(assets@), assets@.len() as int) <= u32::MAX,
        ensures
            r.wf(),
            r@ == asset_views(assets@),
    {
        let ghost all = asset_views(assets@);
        let mut starts: Vec<u32> = Vec::new();
        starts.push(0);
        let mut i: usize = 0;
        proof {
            lemma_flat_chunks(all, all.len() as int);
        }
        while i < assets.len()
            invariant
                i <= assets@.len(),
                all == asset_views(assets@),
                starts@.len() == i + 1,
                chunks_before(all, all.len() as int) <= u32::MAX,
                forall|f: int|
                    0 <= f <= all.len() ==> 0 <= #[trigger] chunks_before(all, f) <= chunks_before(
                        all,
                        all.len() as int,
                    ),
                forall|k: int| 0 <= k <= i ==> #[trigger] starts@[k] == chunks_before(all, k),
            decreases assets@.len() - i,
        {
            let count: usize = assets[i].asset_chunks.len();
            assert(all[i as int].chunks.len() == count);
            assert(chunks_before(all, i as int + 1) <= u32::MAX);
            assert(starts@[i as int] == chunks_before(all, i as int));
            let next: u32 = starts[i] + count as u32;
            starts.push(next);
            i += 1;
        }
        CompactManifest { assets, starts }
    }

    pub fn num_files(&self) -> (r: usize)
        ensures
            r == self@.len(),
    {
        self.assets.len()
    }

    pub fn num_chunks(&self) -> (r: usize)
        requires
            self.wf(),
        ensures
            r == chunks_before(self@, self@.len() as int),
    {
        self.starts[self.assets.len()] as usize
    }

    pub fn file_name(&self, i: usize) -> (r: &str)
        requires
            i < self@.len(),
        ensures
            r@ == self@[i as int].name,
    {
        self.assets[i].asset_name.as_str()
    }

    pub fn file_size(&self, i: usize) -> (r: u64)
        requires
            i < self@.len(),
        ensures
            r == self@[i as int].size,
    {
        self.assets[i].asset_size
    }

    pub fn is_directory(&self, i: usize) -> (r: bool)
        requires
            i < self@.len(),
        ensures
            r == self@[i as int].is_directory(),
    {
        self.assets[i].is_directory()
    }

    /// Where the chunks of a file start and end in the list of all chunks.
    pub fn file_chunk_range(&self, i: usize) -> (r: (u32, u32))
        requires
            self.wf(),
            i < self@.len(),
        ensures
            r.0 == chunks_before(self@, i as int),
            r.1 == r.0 + self@[i as int].chunks.len(),
    {
        assert(self.starts@[i as int] == chunks_before(self@, i as int));
        assert(self.starts@[i as int + 1] == chunks_before(self@, i as int + 1));
        (self.starts[i], self.starts[i + 1])
    }

    /// A chunk of a file.
    pub fn file_chunk(&self, file: usize, chunk: usize) -> (r: &SophonManifestAssetChunk)
        requires
            file < self@.len(),
            chunk < self@[file as int].chunks.len(),
        ensures
            r@ == self@[file as int].chunks[chunk as int],
    {
        &self.assets[file].asset_chunks[chunk]
    }

    /// The number of chunks of a file.
    pub fn file_chunk_count(&self, i: usize) -> (r: usize)
        requires
            i < self@.len(),
        ensures
            r == self@[i as int].chunks.len(),
    {
        self.assets[i].asset_chunks.len()
    }
}

} // verus!

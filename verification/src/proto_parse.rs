//! Manifests: the files of a build and the chunks that they are made of.

use vstd::prelude::*;

verus! {

/// A part of a file, which is downloaded on its own.
#[derive(Debug)]
pub struct SophonManifestAssetChunk {
    pub chunk_name: String,
    pub chunk_decompressed_hash_md5: String,
    pub chunk_on_file_offset: u64,
    pub chunk_size: u64,
    pub chunk_size_decompressed: u64,
    pub chunk_compressed_hash_xxh: u64,
    pub chunk_compressed_hash_md5: String,
    /// Where the same content stands in the old file; negative where it does not.
    pub chunk_old_offset: i64,
}

/// A file or directory.
#[derive(Debug)]
pub struct SophonManifestAssetProperty {
    pub asset_name: String,
    pub asset_chunks: Vec<SophonManifestAssetChunk>,
    pub asset_type: u32,
    pub asset_size: u64,
    pub asset_hash_md5: String,
}

/// A build.
#[derive(Debug)]
pub struct SophonManifestProto {
    pub assets: Vec<SophonManifestAssetProperty>,
}

/// The asset type of a directory.
pub const DIRECTORY_TYPE: u32 = 64;

/// What a chunk says.
pub ghost struct ChunkView {
    pub name: Seq<char>,
    pub decompressed_md5: Seq<char>,
    pub on_file_offset: u64,
    pub size: u64,
    pub size_decompressed: u64,
    pub compressed_xxh: u64,
    pub compressed_md5: Seq<char>,
    pub old_offset: i64,
}

/// What an asset says.
pub ghost struct AssetView {
    pub name: Seq<char>,
    pub chunks: Seq<ChunkView>,
    pub asset_type: u32,
    pub size: u64,
    pub md5: Seq<char>,
}

impl AssetView {
    pub open spec fn is_directory(self) -> bool {
        self.asset_type == DIRECTORY_TYPE
    }
}

impl View for SophonManifestAssetChunk {
    type V = ChunkView;

    open spec fn view(&self) -> ChunkView {
        ChunkView {
            name: self.chunk_name@,
            decompressed_md5: self.chunk_decompressed_hash_md5@,
            on_file_offset: self.chunk_on_file_offset,
            size: self.chunk_size,
            size_decompressed: self.chunk_size_decompressed,
            compressed_xxh: self.chunk_compressed_hash_xxh,
            compressed_md5: self.chunk_compressed_hash_md5@,
            old_offset: self.chunk_old_offset,
        }
    }
}

/// What each of some chunks says.
pub open spec fn chunk_views(chunks: Seq<SophonManifestAssetChunk>) -> Seq<ChunkView> {
    chunks.map_values(|c: SophonManifestAssetChunk| c@)
}

impl View for SophonManifestAssetProperty {
    type V = AssetView;

    open spec fn view(&self) -> AssetView {
        AssetView {
            name: self.asset_name@,
            chunks: chunk_views(self.asset_chunks@),
            asset_type: self.asset_type,
            size: self.asset_size,
            md5: self.asset_hash_md5@,
        }
    }
}

/// What each of some assets says.
pub open spec fn asset_views(assets: Seq<SophonManifestAssetProperty>) -> Seq<AssetView> {
    assets.map_values(|a: SophonManifestAssetProperty| a@)
}

impl View for SophonManifestProto {
    type V = Seq<AssetView>;

    open spec fn view(&self) -> Seq<AssetView> {
        asset_views(self.assets@)
    }
}

impl Clone for SophonManifestAssetChunk {
    fn clone(&self) -> (r: Self)
        ensures
            r@ == self@,
    {
        SophonManifestAssetChunk {
            chunk_name: self.chunk_name.clone(),
            chunk_decompressed_hash_md5: self.chunk_decompressed_hash_md5.clone(),
            chunk_on_file_offset: self.chunk_on_file_offset,
            chunk_size: self.chunk_size,
            chunk_size_decompressed: self.chunk_size_decompressed,
            chunk_compressed_hash_xxh: self.chunk_compressed_hash_xxh,
            chunk_compressed_hash_md5: self.chunk_compressed_hash_md5.clone(),
            chunk_old_offset: self.chunk_old_offset,
        }
    }
}

/// Copies a list of chunks.
fn copy_chunks(chunks: &Vec<SophonManifestAssetChunk>) -> (r: Vec<SophonManifestAssetChunk>)
    ensures
        chunk_views(r@) == chunk_views(chunks@),
{
    let mut out: Vec<SophonManifestAssetChunk> = Vec::new();
    let mut i: usize = 0;
    while i < chunks.len()
        invariant
            i <= chunks@.len(),
            out@.len() == i,
            forall|j: int| 0 <= j < i ==> #[trigger] out@[j]@ == chunks@[j]@,
        decreases chunks@.len() - i,
    {
        out.push(chunks[i].clone());
        i += 1;
    }
    assert(chunk_views(out@) =~= chunk_views(chunks@));
    out
}

impl Clone for SophonManifestAssetProperty {
    fn clone(&self) -> (r: Self)
        ensures
            r@ == self@,
    {
        SophonManifestAssetProperty {
            asset_name: self.asset_name.clone(),
            asset_chunks: copy_chunks(&self.asset_chunks),
            asset_type: self.asset_type,
            asset_size: self.asset_size,
            asset_hash_md5: self.asset_hash_md5.clone(),
        }
    }
}

impl SophonManifestAssetProperty {
    /// Whether the asset is a directory.
    pub fn is_directory(&self) -> (r: bool)
        ensures
            r == self@.is_directory(),
    {
        self.asset_type == DIRECTORY_TYPE
    }
}

} // verus!

//! Names for manifests that depend on what they say and not on how they say it.

use vstd::bytes::spec_u32_to_le_bytes;
use vstd::bytes::spec_u64_to_le_bytes;
use vstd::bytes::u32_to_le_bytes;
use vstd::bytes::u64_to_le_bytes;
use vstd::prelude::*;
use vstd::utf8::encode_utf8;
use crate::digest::short_hash;
use crate::digest::short_hash_of;
use crate::ordering::as_ints;
use crate::ordering::key_views;
use crate::ordering::lemma_can_be_sorted;
use crate::ordering::lemma_name_le_antisymmetric;
use crate::ordering::name_lt;
use crate::ordering::sort_keys;
use crate::ordering::sorted_order;
use crate::ordering::sorted_range;
use crate::proto_parse::AssetView;
use crate::proto_parse::ChunkView;
use crate::proto_parse::SophonManifestAssetChunk;
use crate::proto_parse::SophonManifestAssetProperty;
use crate::proto_parse::SophonManifestProto;
use crate::text::chars_of;

verus! {

/// The bytes of a chunk that a manifest is named by: its name, its checksums,
/// and where it stands and how long it is. The xxHash is left out, and so is
/// the place in an old file.
pub open spec fn chunk_bytes(c: ChunkView) -> Seq<u8> {
    encode_utf8(c.name) + encode_utf8(c.decompressed_md5) + encode_utf8(c.compressed_md5)
        + spec_u64_to_le_bytes(c.on_file_offset) + spec_u64_to_le_bytes(c.size)
        + spec_u64_to_le_bytes(c.size_decompressed)
}

/// The bytes of the first `n` chunks.
pub open spec fn chunks_bytes(chunks: Seq<ChunkView>, n: int) -> Seq<u8>
    decreases n,
{
    if n <= 0 {
        Seq::empty()
    } else {
        chunks_bytes(chunks, n - 1) + chunk_bytes(chunks[n - 1])
    }
}

/// The bytes of an asset that a manifest is named by.
pub open spec fn asset_bytes(a: AssetView) -> Seq<u8> {
    encode_utf8(a.name) + spec_u64_to_le_bytes(a.size) + spec_u32_to_le_bytes(a.asset_type)
        + encode_utf8(a.md5) + chunks_bytes(a.chunks, a.chunks.len() as int)
}

/// The names of some assets.
pub open spec fn asset_names(assets: Seq<AssetView>) -> Seq<Seq<char>> {
    assets.map_values(|a: AssetView| a.name)
}

/// Some assets, sorted by name; those with one name stay in order.
pub open spec fn assets_by_name(assets: Seq<AssetView>) -> Seq<AssetView> {
    sorted_order(asset_names(assets)).map_values(|i: int| assets[i])
}

/// The bytes of the first `n` assets.
pub open spec fn assets_bytes(assets: Seq<AssetView>, n: int) -> Seq<u8>
    decreases n,
{
    if n <= 0 {
        Seq::empty()
    } else {
        assets_bytes(assets, n - 1) + asset_bytes(assets[n - 1])
    }
}

/// The bytes that a manifest is named by: those of its assets, sorted by name.
pub open spec fn manifest_bytes(assets: Seq<AssetView>) -> Seq<u8> {
    assets_bytes(assets_by_name(assets), assets.len() as int)
}

fn put_str(out: &mut Vec<u8>, s: &str)
    ensures
        final(out)@ == old(out)@ + encode_utf8(s@),
{
    let mut bytes = vstd::slice::slice_to_vec(s.as_bytes());
    out.append(&mut bytes);
}

fn put_u64(out: &mut Vec<u8>, x: u64)
    ensures
        final(out)@ == old(out)@ + spec_u64_to_le_bytes(x),
{
    let mut bytes = u64_to_le_bytes(x);
    out.append(&mut bytes);
}

fn put_chunk(out: &mut Vec<u8>, c: &SophonManifestAssetChunk)
    ensures
        final(out)@ == old(out)@ + chunk_bytes(c@),
{
    put_str(out, c.chunk_name.as_str());
    put_str(out, c.chunk_decompressed_hash_md5.as_str());
    put_str(out, c.chunk_compressed_hash_md5.as_str());
    put_u64(out, c.chunk_on_file_offset);
    put_u64(out, c.chunk_size);
    put_u64(out, c.chunk_size_decompressed);
    assert(out@ =~= old(out)@ + chunk_bytes(c@));
}

fn put_asset(out: &mut Vec<u8>, a: &SophonManifestAssetProperty)
    ensures
        final(out)@ == old(out)@ + asset_bytes(a@),
{
    put_str(out, a.asset_name.as_str());
    put_u64(out, a.asset_size);
    let mut kind = u32_to_le_bytes(a.asset_type);
    out.append(&mut kind);
    put_str(out, a.asset_hash_md5.as_str());
    let ghost head = out@;
    let ghost chunks = a@.chunks;
    let mut i: usize = 0;
    assert(head + chunks_bytes(chunks, 0) =~= head);
    while i < a.asset_chunks.len()
        invariant
            i <= a.asset_chunks@.len(),
            chunks == a@.chunks,
            out@ == head + chunks_bytes(chunks, i as int),
        decreases a.asset_chunks@.len() - i,
    {
        let ghost before = out@;
        put_chunk(out, &a.asset_chunks[i]);
        i += 1;
        assert(out@ =~= head + chunks_bytes(chunks, i as int));
    }
    assert(out@ =~= old(out)@ + asset_bytes(a@));
}

/// Names a manifest by its content. The order of its assets does not count, nor
/// does the undocumented xxHash of its chunks.
pub fn compute_content_manifest_hash(manifest: &SophonManifestProto) -> (r: String)
    ensures
        r@ == short_hash_of(manifest_bytes(manifest@)),
        r@.len() == 16,
{
    let mut keys: Vec<Vec<char>> = Vec::new();
    let mut k: usize = 0;
    while k < manifest.assets.len()
        invariant
            k <= manifest.assets@.len(),
            keys@.len() == k,
            forall|j: int| 0 <= j < k ==> #[trigger] keys@[j]@ == manifest.assets@[j]@.name,
        decreases manifest.assets@.len() - k,
    {
        keys.push(chars_of(manifest.assets[k].asset_name.as_str()));
        k += 1;
    }
    assert(key_views(keys@) =~= asset_names(manifest@));
    let order = sort_keys(&keys);
    let ghost sorted = assets_by_name(manifest@);
    let n: usize = order.len();
    let mut out: Vec<u8> = Vec::new();
    let mut i: usize = 0;
    while i < n
        invariant
            i <= n,
            n == order@.len(),
            n == manifest.assets@.len(),
            as_ints(order@) == sorted_order(asset_names(manifest@)),
            sorted_range(
                asset_names(manifest@),
                0,
                manifest.assets@.len() as int,
                as_ints(order@),
            ),
            sorted == assets_by_name(manifest@),
            out@ == assets_bytes(sorted, i as int),
        decreases n - i,
    {
        assert(as_ints(order@).contains(as_ints(order@)[i as int]));
        put_asset(&mut out, &manifest.assets[order[i]]);
        i += 1;
    }
    short_hash(&out)
}

/// Two lists of assets that are strictly sorted by name and hold the same
/// assets are the same.
proof fn lemma_strictly_sorted_unique(a: Seq<AssetView>, b: Seq<AssetView>)
    requires
        forall|i: int, j: int| 0 <= i < j < a.len() ==> name_lt(#[trigger] a[i].name, #[trigger] a[j].name),
        forall|i: int, j: int| 0 <= i < j < b.len() ==> name_lt(#[trigger] b[i].name, #[trigger] b[j].name),
        forall|x: AssetView| #[trigger] a.contains(x) <==> b.contains(x),
    ensures
        a == b,
    decreases a.len(),
{
    if a.len() == 0 {
        if b.len() > 0 {
            assert(b.contains(b[0]));
            assert(a.contains(b[0]));
        }
        assert(a =~= b);
    } else {
        let n = a.len() - 1;
        assert(a.contains(a[n]));
        assert(b.contains(a[n]));
        let j = choose|j: int| 0 <= j < b.len() && b[j] == a[n];
        let m = b.len() - 1;
        assert(b.contains(b[m]));
        assert(a.contains(b[m]));
        let i = choose|i: int| 0 <= i < a.len() && a[i] == b[m];
        if i < n && j < m {
            assert(name_lt(a[i].name, a[n].name));
            assert(name_lt(b[j].name, b[m].name));
            lemma_name_le_antisymmetric(a[i].name, a[n].name);
        }
        assert(a[n] == b[m]);
        let a2 = a.drop_last();
        let b2 = b.drop_last();
        assert forall|x: AssetView| #[trigger] a2.contains(x) <==> b2.contains(x) by {
            if a2.contains(x) {
                let k = choose|k: int| 0 <= k < a2.len() && a2[k] == x;
                assert(a[k] == x);
                assert(a.contains(x));
                assert(name_lt(a[k].name, a[n].name));
                let l = choose|l: int| 0 <= l < b.len() && b[l] == x;
                assert(b2[l] == x);
            }
            if b2.contains(x) {
                let k = choose|k: int| 0 <= k < b2.len() && b2[k] == x;
                assert(b[k] == x);
                assert(b.contains(x));
                assert(a.contains(x));
                assert(name_lt(b[k].name, b[m].name));
                let l = choose|l: int| 0 <= l < a.len() && a[l] == x;
                assert(a2[l] == x);
            }
        }
        lemma_strictly_sorted_unique(a2, b2);
        assert(a =~= a2.push(a[n]));
        assert(b =~= b2.push(b[m]));
    }
}

/// Assets with different names are strictly sorted, and none gets lost.
proof fn lemma_by_name(assets: Seq<AssetView>)
    requires
        asset_names(assets).no_duplicates(),
    ensures
        ({
            let s = assets_by_name(assets);
            &&& s.len() == assets.len()
            &&& forall|i: int, j: int|
                0 <= i < j < s.len() ==> name_lt(#[trigger] s[i].name, #[trigger] s[j].name)
            &&& forall|x: AssetView| #[trigger] s.contains(x) <==> assets.contains(x)
        }),
{
    let keys = asset_names(assets);
    lemma_can_be_sorted(keys);
    let o = sorted_order(keys);
    let s = assets_by_name(assets);
    assert forall|i: int, j: int| 0 <= i < j < s.len() implies name_lt(
        #[trigger] s[i].name,
        #[trigger] s[j].name,
    ) by {
        assert(o.contains(o[i]) && o.contains(o[j]));
        assert(crate::ordering::index_before(keys, o[i], o[j]));
        assert(keys[o[i]] == s[i].name && keys[o[j]] == s[j].name);
    }
    assert forall|x: AssetView| #[trigger] s.contains(x) <==> assets.contains(x) by {
        if s.contains(x) {
            let i = choose|i: int| 0 <= i < s.len() && s[i] == x;
            assert(o.contains(o[i]));
            assert(assets[o[i]] == x);
        }
        if assets.contains(x) {
            let k = choose|k: int| 0 <= k < assets.len() && assets[k] == x;
            assert(o.contains(k));
            let i = choose|i: int| 0 <= i < o.len() && o[i] == k;
            assert(s[i] == x);
        }
    }
}

/// The order of the assets makes no difference to the name of a manifest whose
/// assets have different names.
pub proof fn law_asset_order_is_immaterial(a: Seq<AssetView>, b: Seq<AssetView>)
    requires
        asset_names(a).no_duplicates(),
        asset_names(b).no_duplicates(),
        a.to_multiset() == b.to_multiset(),
    ensures
        manifest_bytes(a) == manifest_bytes(b),
        short_hash_of(manifest_bytes(a)) == short_hash_of(manifest_bytes(b)),
{
    lemma_by_name(a);
    lemma_by_name(b);
    let x = assets_by_name(a);
    let y = assets_by_name(b);
    assert forall|v: AssetView| #[trigger] x.contains(v) <==> y.contains(v) by {
        a.to_multiset_ensures();
        b.to_multiset_ensures();
        assert(a.contains(v) <==> a.to_multiset().count(v) > 0);
        assert(b.contains(v) <==> b.to_multiset().count(v) > 0);
    }
    lemma_strictly_sorted_unique(x, y);
}

/// A chunk without what a manifest is not named by.
pub open spec fn named_part(c: ChunkView) -> ChunkView {
    ChunkView { compressed_xxh: 0, old_offset: 0, ..c }
}

/// An asset without what a manifest is not named by.
pub open spec fn named_asset(a: AssetView) -> AssetView {
    AssetView { chunks: a.chunks.map_values(|c: ChunkView| named_part(c)), ..a }
}

/// The xxHash of a chunk and its place in an old file make no difference to the
/// name of a manifest.
pub proof fn law_xxhash_is_immaterial(a: Seq<AssetView>)
    ensures
        manifest_bytes(a.map_values(|x: AssetView| named_asset(x))) == manifest_bytes(a),
{
    let b = a.map_values(|x: AssetView| named_asset(x));
    assert(asset_names(a) =~= asset_names(b));
    lemma_can_be_sorted(asset_names(a));
    let o = sorted_order(asset_names(a));
    let x = assets_by_name(a);
    let y = assets_by_name(b);
    assert forall|i: int| 0 <= i < x.len() implies #[trigger] asset_bytes(x[i]) == asset_bytes(
        y[i],
    ) by {
        assert(o.contains(o[i]));
        assert(y[i] == named_asset(x[i]));
        lemma_named_chunks(x[i].chunks, x[i].chunks.len() as int);
    }
    lemma_same_bytes(x, y, a.len() as int);
}

proof fn lemma_named_chunks(chunks: Seq<ChunkView>, n: int)
    requires
        0 <= n <= chunks.len(),
    ensures
        chunks_bytes(chunks.map_values(|c: ChunkView| named_part(c)), n) == chunks_bytes(chunks, n),
    decreases n,
{
    if n > 0 {
        lemma_named_chunks(chunks, n - 1);
    }
}

proof fn lemma_same_bytes(x: Seq<AssetView>, y: Seq<AssetView>, n: int)
    requires
        0 <= n <= x.len(),
        x.len() == y.len(),
        forall|i: int| 0 <= i < x.len() ==> #[trigger] asset_bytes(x[i]) == asset_bytes(y[i]),
    ensures
        assets_bytes(x, n) == assets_bytes(y, n),
    decreases n,
{
    if n > 0 {
        lemma_same_bytes(x, y, n - 1);
        assert(asset_bytes(x[n - 1]) == asset_bytes(y[n - 1]));
    }
}

/// Two texts take the same number of bytes.
pub open spec fn same_width(a: Seq<char>, b: Seq<char>) -> bool {
    encode_utf8(a).len() == encode_utf8(b).len()
}

/// The texts of two chunks take the same number of bytes each.
pub open spec fn same_widths(c: ChunkView, d: ChunkView) -> bool {
    same_width(c.name, d.name) && same_width(c.decompressed_md5, d.decompressed_md5) && same_width(
        c.compressed_md5,
        d.compressed_md5,
    )
}

/// Two assets have the same name and as many chunks, and their other texts take the
/// same number of bytes each.
pub open spec fn same_shape(a: AssetView, b: AssetView) -> bool {
    &&& a.name == b.name
    &&& same_width(a.md5, b.md5)
    &&& a.chunks.len() == b.chunks.len()
    &&& forall|i: int| 0 <= i < a.chunks.len() ==> same_widths(#[trigger] a.chunks[i], b.chunks[i])
}

proof fn lemma_cut(x: Seq<u8>, a: Seq<u8>, y: Seq<u8>, b: Seq<u8>)
    requires
        x + a == y + b,
        a.len() == b.len(),
    ensures
        x == y,
        a == b,
{
    let s = x + a;
    assert(s.len() == x.len() + a.len());
    assert((y + b).len() == y.len() + b.len());
    assert(x =~= s.subrange(0, x.len() as int));
    assert(y =~= (y + b).subrange(0, y.len() as int));
    assert(a =~= s.subrange(x.len() as int, s.len() as int));
    assert(b =~= (y + b).subrange(y.len() as int, s.len() as int));
}

proof fn lemma_text_comes_back(a: Seq<char>, b: Seq<char>)
    requires
        encode_utf8(a) == encode_utf8(b),
    ensures
        a == b,
{
    vstd::utf8::encode_utf8_decode_utf8(a);
    vstd::utf8::encode_utf8_decode_utf8(b);
}

/// Chunks whose texts take the same number of bytes give a manifest different
/// names wherever they differ in more than the xxHash and the place in an old
/// file: no name, checksum, place or size is left out.
pub proof fn law_every_part_of_a_chunk_counts(c: ChunkView, d: ChunkView)
    requires
        same_widths(c, d),
    ensures
        chunk_bytes(c) == chunk_bytes(d) <==> named_part(c) == named_part(d),
        chunk_bytes(c).len() == chunk_bytes(d).len(),
{
    vstd::bytes::lemma_auto_spec_u64_to_from_le_bytes();
    if chunk_bytes(c) == chunk_bytes(d) {
        let c1 = encode_utf8(c.name);
        let d1 = encode_utf8(d.name);
        let c2 = c1 + encode_utf8(c.decompressed_md5);
        let d2 = d1 + encode_utf8(d.decompressed_md5);
        let c3 = c2 + encode_utf8(c.compressed_md5);
        let d3 = d2 + encode_utf8(d.compressed_md5);
        let c4 = c3 + spec_u64_to_le_bytes(c.on_file_offset);
        let d4 = d3 + spec_u64_to_le_bytes(d.on_file_offset);
        let c5 = c4 + spec_u64_to_le_bytes(c.size);
        let d5 = d4 + spec_u64_to_le_bytes(d.size);
        lemma_cut(
            c5,
            spec_u64_to_le_bytes(c.size_decompressed),
            d5,
            spec_u64_to_le_bytes(d.size_decompressed),
        );
        lemma_cut(c4, spec_u64_to_le_bytes(c.size), d4, spec_u64_to_le_bytes(d.size));
        lemma_cut(
            c3,
            spec_u64_to_le_bytes(c.on_file_offset),
            d3,
            spec_u64_to_le_bytes(d.on_file_offset),
        );
        lemma_cut(c2, encode_utf8(c.compressed_md5), d2, encode_utf8(d.compressed_md5));
        lemma_cut(c1, encode_utf8(c.decompressed_md5), d1, encode_utf8(d.decompressed_md5));
        lemma_text_comes_back(c.name, d.name);
        lemma_text_comes_back(c.decompressed_md5, d.decompressed_md5);
        lemma_text_comes_back(c.compressed_md5, d.compressed_md5);
    }
    if named_part(c) == named_part(d) {
        let x = named_part(c);
        let y = named_part(d);
        assert(x.name == y.name && x.size == y.size && x.on_file_offset == y.on_file_offset);
        assert(x.size_decompressed == y.size_decompressed);
        assert(x.decompressed_md5 == y.decompressed_md5 && x.compressed_md5 == y.compressed_md5);
    }
}

proof fn lemma_chunks_count(c: Seq<ChunkView>, d: Seq<ChunkView>, n: int)
    requires
        0 <= n <= c.len(),
        c.len() == d.len(),
        forall|i: int| 0 <= i < c.len() ==> same_widths(#[trigger] c[i], d[i]),
    ensures
        chunks_bytes(c, n).len() == chunks_bytes(d, n).len(),
        chunks_bytes(c, n) == chunks_bytes(d, n) ==> forall|i: int|
            0 <= i < n ==> named_part(#[trigger] c[i]) == named_part(d[i]),
    decreases n,
{
    if n > 0 {
        lemma_chunks_count(c, d, n - 1);
        assert(same_widths(c[n - 1], d[n - 1]));
        law_every_part_of_a_chunk_counts(c[n - 1], d[n - 1]);
        if chunks_bytes(c, n) == chunks_bytes(d, n) {
            lemma_cut(
                chunks_bytes(c, n - 1),
                chunk_bytes(c[n - 1]),
                chunks_bytes(d, n - 1),
                chunk_bytes(d[n - 1]),
            );
        }
    }
}

proof fn lemma_asset_counts(a: AssetView, b: AssetView)
    requires
        same_shape(a, b),
    ensures
        asset_bytes(a).len() == asset_bytes(b).len(),
        asset_bytes(a) == asset_bytes(b) ==> named_asset(a) == named_asset(b),
{
    vstd::bytes::lemma_auto_spec_u64_to_from_le_bytes();
    vstd::bytes::lemma_auto_spec_u32_to_from_le_bytes();
    let n = a.chunks.len() as int;
    lemma_chunks_count(a.chunks, b.chunks, n);
    if asset_bytes(a) == asset_bytes(b) {
        let a1 = encode_utf8(a.name);
        let b1 = encode_utf8(b.name);
        let a2 = a1 + spec_u64_to_le_bytes(a.size);
        let b2 = b1 + spec_u64_to_le_bytes(b.size);
        let a3 = a2 + spec_u32_to_le_bytes(a.asset_type);
        let b3 = b2 + spec_u32_to_le_bytes(b.asset_type);
        let a4 = a3 + encode_utf8(a.md5);
        let b4 = b3 + encode_utf8(b.md5);
        lemma_cut(a4, chunks_bytes(a.chunks, n), b4, chunks_bytes(b.chunks, n));
        lemma_cut(a3, encode_utf8(a.md5), b3, encode_utf8(b.md5));
        lemma_cut(a2, spec_u32_to_le_bytes(a.asset_type), b2, spec_u32_to_le_bytes(b.asset_type));
        lemma_cut(a1, spec_u64_to_le_bytes(a.size), b1, spec_u64_to_le_bytes(b.size));
        lemma_text_comes_back(a.md5, b.md5);
        assert(spec_u32_to_le_bytes(a.asset_type).len() == 4);
        assert(spec_u32_to_le_bytes(b.asset_type).len() == 4);
        assert(named_asset(a).chunks =~= named_asset(b).chunks);
    }
}

proof fn lemma_assets_count(x: Seq<AssetView>, y: Seq<AssetView>, n: int)
    requires
        0 <= n <= x.len(),
        x.len() == y.len(),
        forall|i: int| 0 <= i < x.len() ==> same_shape(#[trigger] x[i], y[i]),
    ensures
        assets_bytes(x, n) == assets_bytes(y, n) ==> forall|i: int|
            0 <= i < n ==> named_asset(#[trigger] x[i]) == named_asset(y[i]),
    decreases n,
{
    if n > 0 {
        lemma_assets_count(x, y, n - 1);
        assert(same_shape(x[n - 1], y[n - 1]));
        lemma_asset_counts(x[n - 1], y[n - 1]);
        if assets_bytes(x, n) == assets_bytes(y, n) {
            lemma_cut(
                assets_bytes(x, n - 1),
                asset_bytes(x[n - 1]),
                assets_bytes(y, n - 1),
                asset_bytes(y[n - 1]),
            );
        }
    }
}

/// Manifests of the same files, with as many chunks each, give the same bytes only
/// where they agree in every size, kind, checksum and place: nothing that a
/// manifest says is left out of its name but the xxHash of a chunk and its place
/// in an old file.
pub proof fn law_every_part_of_a_manifest_counts(a: Seq<AssetView>, b: Seq<AssetView>)
    requires
        a.len() == b.len(),
        forall|i: int| 0 <= i < a.len() ==> same_shape(#[trigger] a[i], b[i]),
        manifest_bytes(a) == manifest_bytes(b),
    ensures
        forall|i: int| 0 <= i < a.len() ==> named_asset(#[trigger] a[i]) == named_asset(b[i]),
{
    assert(asset_names(a) =~= asset_names(b)) by {
        assert forall|i: int| 0 <= i < a.len() implies #[trigger] asset_names(a)[i] == asset_names(
            b,
        )[i] by {
            assert(same_shape(a[i], b[i]));
        }
    }
    lemma_can_be_sorted(asset_names(a));
    let o = sorted_order(asset_names(a));
    let x = assets_by_name(a);
    let y = assets_by_name(b);
    assert forall|j: int| 0 <= j < x.len() implies same_shape(#[trigger] x[j], y[j]) by {
        assert(o.contains(o[j]));
        assert(same_shape(a[o[j]], b[o[j]]));
    }
    lemma_assets_count(x, y, a.len() as int);
    assert forall|i: int| 0 <= i < a.len() implies named_asset(#[trigger] a[i]) == named_asset(
        b[i],
    ) by {
        assert(o.contains(i));
        let j = choose|j: int| 0 <= j < o.len() && o[j] == i;
        assert(x[j] == a[i] && y[j] == b[i]);
    }
}

} // verus!

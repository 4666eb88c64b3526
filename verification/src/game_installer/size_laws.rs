//! What the sizes of a build and of an update come to.

use vstd::prelude::*;
use crate::collections::value_at;
use crate::proto_parse::AssetView;
use crate::proto_parse::ChunkView;
use super::api::stated_size;
use super::chunk_reuse::md5s_below;
use super::update::content_names;
use super::update::diff_sizes;
use super::update::file_chunks;
use super::update::preinstall_version;
use super::update::sizes_below;
use super::update::update_state;
use super::update::with_asset_sizes;
use super::update::with_chunk_sizes;
use super::update::DiffSizes;
use super::update::PairView;
use super::update_laws::wanted;

verus! {

/// The number that a text states; zero where it states none.
pub open spec fn number(text: Seq<char>) -> int {
    match stated_size(text) {
        Some(x) => x as int,
        None => 0,
    }
}

/// What those of the first `n` manifests that belong to an installation state as
/// their packed sizes, in all.
pub open spec fn packed_total(
    v: Seq<(Seq<char>, Seq<char>, Seq<char>)>,
    lang: Seq<char>,
    n: int,
) -> int
    decreases n,
{
    if n <= 0 {
        0
    } else {
        packed_total(v, lang, n - 1) + if wanted(v[n - 1].0, lang) {
            number(v[n - 1].1)
        } else {
            0
        }
    }
}

/// What they state as their unpacked sizes, in all.
pub open spec fn unpacked_total(
    v: Seq<(Seq<char>, Seq<char>, Seq<char>)>,
    lang: Seq<char>,
    n: int,
) -> int
    decreases n,
{
    if n <= 0 {
        0
    } else {
        unpacked_total(v, lang, n - 1) + if wanted(v[n - 1].0, lang) {
            number(v[n - 1].2)
        } else {
            0
        }
    }
}

/// Each of the first `n` manifests that belongs to an installation states numbers.
pub open spec fn states_numbers(
    v: Seq<(Seq<char>, Seq<char>, Seq<char>)>,
    lang: Seq<char>,
    n: int,
) -> bool {
    forall|i: int|
        0 <= i < n && wanted((#[trigger] v[i]).0, lang) ==> stated_size(v[i].1) is Some
            && stated_size(v[i].2) is Some
}

/// The sizes of a build are the sums of what the manifests of the installation
/// state. They are told exactly where each of these states numbers, and the sums
/// fit 64 bits.
pub proof fn law_build_sizes_add_up(
    v: Seq<(Seq<char>, Seq<char>, Seq<char>)>,
    lang: Seq<char>,
    n: int,
)
    requires
        0 <= n <= v.len(),
    ensures
        sizes_below(v, lang, n) is Ok <==> states_numbers(v, lang, n) && packed_total(v, lang, n)
            <= u64::MAX && unpacked_total(v, lang, n) <= u64::MAX,
        sizes_below(v, lang, n) matches Ok((c, d)) ==> c == packed_total(v, lang, n) && d
            == unpacked_total(v, lang, n),
        packed_total(v, lang, n) >= 0,
        unpacked_total(v, lang, n) >= 0,
    decreases n,
{
    if n > 0 {
        law_build_sizes_add_up(v, lang, n - 1);
        let x = v[n - 1];
        if states_numbers(v, lang, n) {
            assert(states_numbers(v, lang, n - 1));
        }
        if states_numbers(v, lang, n - 1) && (wanted(x.0, lang) ==> stated_size(x.1) is Some
            && stated_size(x.2) is Some) {
            assert(states_numbers(v, lang, n));
        }
        if wanted(x.0, lang) && (stated_size(x.1) is None || stated_size(x.2) is None) {
            assert(!states_numbers(v, lang, n)) by {
                assert(v[n - 1] == x);
            }
        }
    }
}

/// A preinstallation is looked for under the version that is offered, or else
/// under the one that an update would bring; where the game is not installed or is
/// up to date, and nothing is offered, none is looked for.
pub proof fn law_preinstallations_are_looked_for(
    current: Option<Seq<char>>,
    remote: Seq<char>,
    offered: Option<Seq<char>>,
)
    ensures
        offered is Some ==> preinstall_version(current, remote, offered) == offered,
        offered is None && current is None ==> preinstall_version(current, remote, offered) is None,
        offered is None && current is Some ==> (preinstall_version(current, remote, offered)
            == if current == Some(remote) {
            None
        } else {
            Some(remote)
        }),
{
}

/// The `i`th asset is the last file of that name among the first `n`.
pub open spec fn is_last_file(old: Seq<AssetView>, n: int, name: Seq<char>, i: int) -> bool {
    &&& 0 <= i < n
    &&& !old[i].is_directory()
    &&& old[i].name == name
    &&& forall|j: int| i < j < n ==> (#[trigger] old[j]).is_directory() || old[j].name != name
}

/// The last of the first `n` old files of the name of `a` has its checksum.
pub open spec fn is_kept(old: Seq<AssetView>, n: int, a: AssetView) -> bool {
    exists|i: int| #[trigger] is_last_file(old, n, a.name, i) && old[i].md5 == a.md5
}

/// One of the files has a chunk with that content.
pub open spec fn holds_chunk_content(old: Seq<AssetView>, n: int, md5: Seq<char>) -> bool {
    exists|g: int, d: int|
        0 <= g < n && !old[g].is_directory() && 0 <= d < old[g].chunks.len() && (
        #[trigger] old[g].chunks[d]).decompressed_md5 == md5
}

/// The `c`th chunk of the `f`th asset of a new manifest is downloaded: it is of a
/// file that changes, and the old files do not hold its content.
pub open spec fn is_downloaded(p: PairView, f: int, c: int) -> bool {
    &&& 0 <= f < p.new.len()
    &&& 0 <= c < p.new[f].chunks.len()
    &&& !p.new[f].is_directory()
    &&& !is_kept(p.old, p.old.len() as int, p.new[f])
    &&& !holds_chunk_content(p.old, p.old.len() as int, p.new[f].chunks[c].decompressed_md5)
}

/// One of the chunks that are downloaded for a new manifest is `x`.
pub open spec fn downloads_chunk(p: PairView, x: ChunkView) -> bool {
    exists|f: int, c: int| is_downloaded(p, f, c) && #[trigger] p.new[f].chunks[c] == x
}

/// An update out of the first `n` pairs downloads `x`.
pub open spec fn update_downloads(v: Seq<PairView>, lang: Seq<char>, n: int, x: ChunkView) -> bool {
    exists|k: int| 0 <= k < n && wanted(v[k].field, lang) && downloads_chunk(#[trigger] v[k], x)
}

/// One of the chunks has the name.
pub open spec fn is_named_among(list: Seq<ChunkView>, name: Seq<char>) -> bool {
    exists|i: int| 0 <= i < list.len() && (#[trigger] list[i]).name == name
}

/// The packed sizes of the chunks, in all.
pub open spec fn packed_bytes(list: Seq<ChunkView>) -> int
    decreases list.len(),
{
    if list.len() == 0 {
        0
    } else {
        packed_bytes(list.drop_last()) + list.last().size
    }
}

/// The unpacked sizes of the chunks, in all.
pub open spec fn unpacked_bytes(list: Seq<ChunkView>) -> int
    decreases list.len(),
{
    if list.len() == 0 {
        0
    } else {
        unpacked_bytes(list.drop_last()) + list.last().size_decompressed
    }
}

/// No two of the chunks have the same name.
pub open spec fn names_differ(list: Seq<ChunkView>) -> bool {
    forall|i: int, j: int|
        0 <= i < j < list.len() ==> (#[trigger] list[i]).name != (#[trigger] list[j]).name
}

/// The chunks are what an update downloads, each name once.
pub open spec fn is_download_list(
    v: Seq<PairView>,
    lang: Seq<char>,
    n: int,
    list: Seq<ChunkView>,
) -> bool {
    &&& names_differ(list)
    &&& forall|i: int| 0 <= i < list.len() ==> update_downloads(v, lang, n, #[trigger] list[i])
    &&& forall|x: ChunkView| #[trigger] update_downloads(v, lang, n, x) ==> is_named_among(list, x.name)
}

/// The sizes of an update are those of the chunks that it downloads, each name
/// once: the chunks of the new or changed files of the parts of the installation,
/// without those whose content the old files hold.
pub proof fn law_update_sizes_are_those_of_its_downloads(v: Seq<PairView>, lang: Seq<char>)
    ensures
        exists|list: Seq<ChunkView>|
            #![trigger is_download_list(v, lang, v.len() as int, list)]
            is_download_list(v, lang, v.len() as int, list) && diff_sizes(
                v,
                lang,
                v.len() as int,
            ).compressed == packed_bytes(list) && diff_sizes(v, lang, v.len() as int).decompressed
                == unpacked_bytes(list),
{
    let list = lemma_pairs(v, lang, v.len() as int);
    assert(is_download_list(v, lang, v.len() as int, list));
}

/// An update to a build whose files all have the checksums that the old files of
/// their names have takes nothing.
pub proof fn law_unchanged_builds_take_nothing(v: Seq<PairView>, lang: Seq<char>)
    requires
        forall|k: int, f: int|
            #![trigger v[k].new[f]]
            0 <= k < v.len() && 0 <= f < v[k].new.len() && !v[k].new[f].is_directory() ==> is_kept(
                v[k].old,
                v[k].old.len() as int,
                v[k].new[f],
            ),
    ensures
        diff_sizes(v, lang, v.len() as int).compressed == 0,
        diff_sizes(v, lang, v.len() as int).decompressed == 0,
{
    let n = v.len() as int;
    let list = lemma_pairs(v, lang, n);
    if list.len() > 0 {
        assert(update_downloads(v, lang, n, list[0]));
        let k = choose|k: int|
            0 <= k < n && wanted(v[k].field, lang) && downloads_chunk(#[trigger] v[k], list[0]);
        let (f, c) = choose|f: int, c: int|
            is_downloaded(v[k], f, c) && #[trigger] v[k].new[f].chunks[c] == list[0];
        assert(!v[k].new[f].is_directory());
    }
}

proof fn lemma_last_md5(old: Seq<AssetView>, n: int, a: AssetView)
    requires
        0 <= n <= old.len(),
    ensures
        value_at(md5s_below(old, Set::empty(), n), a.name) == Some(a.md5) <==> is_kept(old, n, a),
    decreases n,
{
    if n > 0 {
        lemma_last_md5(old, n - 1, a);
        let x = old[n - 1];
        if !x.is_directory() && x.name == a.name {
            assert(is_last_file(old, n, a.name, n - 1));
            assert forall|i: int| #[trigger] is_last_file(old, n, a.name, i) implies i == n - 1 by {
                if i < n - 1 {
                    assert(old[n - 1].name != a.name);
                }
            }
        } else {
            assert forall|i: int|
                #[trigger] is_last_file(old, n, a.name, i) <==> is_last_file(
                    old,
                    n - 1,
                    a.name,
                    i,
                ) by {
                if is_last_file(old, n - 1, a.name, i) {
                    assert forall|j: int| i < j < n implies (#[trigger] old[j]).is_directory()
                        || old[j].name != a.name by {
                        if j == n - 1 {
                            assert(old[j] == x);
                        }
                    }
                }
            }
            if is_kept(old, n - 1, a) {
                let i = choose|i: int|
                    #[trigger] is_last_file(old, n - 1, a.name, i) && old[i].md5 == a.md5;
                assert(is_last_file(old, n, a.name, i));
            }
            if is_kept(old, n, a) {
                let i = choose|i: int|
                    #[trigger] is_last_file(old, n, a.name, i) && old[i].md5 == a.md5;
                assert(is_last_file(old, n - 1, a.name, i));
            }
        }
    }
}

proof fn lemma_content_names(s: Seq<ChunkView>, md5: Seq<char>)
    ensures
        content_names(s).contains(md5) <==> exists|i: int|
            0 <= i < s.len() && (#[trigger] s[i]).decompressed_md5 == md5,
    decreases s.len(),
{
    if s.len() > 0 {
        let b = s.drop_last();
        lemma_content_names(b, md5);
        if content_names(b).contains(md5) {
            let i = choose|i: int| 0 <= i < b.len() && (#[trigger] b[i]).decompressed_md5 == md5;
            assert(s[i].decompressed_md5 == md5);
        }
        if content_names(s).contains(md5) && !content_names(b).contains(md5) {
            assert(s[s.len() - 1].decompressed_md5 == md5);
        }
        assert forall|i: int|
            0 <= i < s.len() && (#[trigger] s[i]).decompressed_md5 == md5 implies content_names(
            s,
        ).contains(md5) by {
            if i < b.len() {
                assert(b[i].decompressed_md5 == md5);
            }
        }
    }
}

proof fn lemma_file_chunks(old: Seq<AssetView>, n: int, md5: Seq<char>)
    requires
        0 <= n <= old.len(),
    ensures
        (exists|i: int|
            0 <= i < file_chunks(old, n).len() && (#[trigger] file_chunks(
                old,
                n,
            )[i]).decompressed_md5 == md5) <==> holds_chunk_content(old, n, md5),
    decreases n,
{
    if n > 0 {
        lemma_file_chunks(old, n - 1, md5);
        let b = file_chunks(old, n - 1);
        let r = file_chunks(old, n);
        let x = old[n - 1];
        if holds_chunk_content(old, n - 1, md5) {
            let (g, d) = choose|g: int, d: int|
                0 <= g < n - 1 && !old[g].is_directory() && 0 <= d < old[g].chunks.len() && (
                #[trigger] old[g].chunks[d]).decompressed_md5 == md5;
            assert(old[g].chunks[d].decompressed_md5 == md5);
            assert(holds_chunk_content(old, n, md5));
            let i = choose|i: int| 0 <= i < b.len() && (#[trigger] b[i]).decompressed_md5 == md5;
            assert(r[i].decompressed_md5 == md5);
        }
        assert forall|i: int|
            0 <= i < r.len() && (#[trigger] r[i]).decompressed_md5 == md5 implies holds_chunk_content(
            old,
            n,
            md5,
        ) by {
            if i < b.len() {
                assert(b[i].decompressed_md5 == md5);
            } else {
                assert(old[n - 1].chunks[i - b.len()].decompressed_md5 == md5);
            }
        }
        if holds_chunk_content(old, n, md5) && !holds_chunk_content(old, n - 1, md5) {
            let (g, d) = choose|g: int, d: int|
                0 <= g < n && !old[g].is_directory() && 0 <= d < old[g].chunks.len() && (
                #[trigger] old[g].chunks[d]).decompressed_md5 == md5;
            if g < n - 1 {
                assert(old[g].chunks[d].decompressed_md5 == md5);
                assert(holds_chunk_content(old, n - 1, md5));
            }
            assert(r[b.len() + d] == x.chunks[d]);
        }
    }
}

/// The chunks stand for what was counted.
spec fn stands_for(list: Seq<ChunkView>, s: DiffSizes) -> bool {
    &&& names_differ(list)
    &&& s.compressed == packed_bytes(list)
    &&& s.decompressed == unpacked_bytes(list)
    &&& forall|name: Seq<char>| #[trigger] s.seen.contains(name) <==> is_named_among(list, name)
}

/// `list` begins with `head`.
spec fn goes_on(head: Seq<ChunkView>, list: Seq<ChunkView>) -> bool {
    head.len() <= list.len() && head == list.take(head.len() as int)
}

proof fn lemma_goes_on(head: Seq<ChunkView>, mid: Seq<ChunkView>, list: Seq<ChunkView>)
    requires
        goes_on(head, mid),
        goes_on(mid, list),
    ensures
        goes_on(head, list),
        forall|name: Seq<char>| is_named_among(mid, name) ==> #[trigger] is_named_among(list, name),
        forall|i: int| 0 <= i < mid.len() ==> #[trigger] list[i] == mid[i],
{
    assert(head =~= list.take(head.len() as int));
    assert forall|name: Seq<char>| is_named_among(mid, name) implies #[trigger] is_named_among(
        list,
        name,
    ) by {
        let i = choose|i: int| 0 <= i < mid.len() && (#[trigger] mid[i]).name == name;
        assert(list[i] == mid[i]);
    }
}

proof fn lemma_chunks(
    s: DiffSizes,
    head: Seq<ChunkView>,
    chunks: Seq<ChunkView>,
    held: Set<Seq<char>>,
    k: int,
) -> (list: Seq<ChunkView>)
    requires
        0 <= k <= chunks.len(),
        stands_for(head, s),
    ensures
        stands_for(list, with_chunk_sizes(s, chunks, held, k)),
        goes_on(head, list),
        forall|i: int|
            head.len() <= i < list.len() ==> !held.contains((#[trigger] list[i]).decompressed_md5)
                && exists|c: int| 0 <= c < k && #[trigger] chunks[c] == list[i],
        forall|c: int|
            0 <= c < k && !held.contains((#[trigger] chunks[c]).decompressed_md5)
                ==> is_named_among(list, chunks[c].name),
    decreases k,
{
    if k <= 0 {
        assert(head =~= head.take(head.len() as int));
        head
    } else {
        let b = lemma_chunks(s, head, chunks, held, k - 1);
        let t = with_chunk_sizes(s, chunks, held, k - 1);
        let x = chunks[k - 1];
        if held.contains(x.decompressed_md5) || t.seen.contains(x.name) {
            assert forall|i: int| head.len() <= i < b.len() implies !held.contains(
                (#[trigger] b[i]).decompressed_md5,
            ) && exists|c: int| 0 <= c < k && #[trigger] chunks[c] == b[i] by {
                let c = choose|c: int| 0 <= c < k - 1 && #[trigger] chunks[c] == b[i];
                assert(chunks[c] == b[i]);
            }
            b
        } else {
            let r = b.push(x);
            assert(r.drop_last() =~= b);
            assert(head =~= r.take(head.len() as int));
            assert(b =~= r.take(b.len() as int));
            lemma_goes_on(head, b, r);
            assert(!is_named_among(b, x.name));
            let u = with_chunk_sizes(s, chunks, held, k);
            assert forall|name: Seq<char>| #[trigger]
                u.seen.contains(name) <==> is_named_among(r, name) by {
                assert(t.seen.contains(name) <==> is_named_among(b, name));
                if is_named_among(r, name) {
                    let i = choose|i: int| 0 <= i < r.len() && (#[trigger] r[i]).name == name;
                    if i < b.len() {
                        assert(b[i].name == name);
                    }
                }
                if name == x.name {
                    assert(r[b.len() as int].name == name);
                }
            }
            assert forall|i: int, j: int| 0 <= i < j < r.len() implies (#[trigger] r[i]).name != (
            #[trigger] r[j]).name by {
                assert(r[i] == b[i]);
                if j < b.len() {
                    assert(r[j] == b[j]);
                }
            }
            assert forall|i: int| head.len() <= i < r.len() implies !held.contains(
                (#[trigger] r[i]).decompressed_md5,
            ) && exists|c: int| 0 <= c < k && #[trigger] chunks[c] == r[i] by {
                if i < b.len() {
                    assert(r[i] == b[i]);
                    let c = choose|c: int| 0 <= c < k - 1 && #[trigger] chunks[c] == b[i];
                    assert(chunks[c] == r[i]);
                } else {
                    assert(chunks[k - 1] == r[i]);
                }
            }
            assert forall|c: int|
                0 <= c < k && !held.contains((#[trigger] chunks[c]).decompressed_md5) implies is_named_among(
                r,
                chunks[c].name,
            ) by {
                if c < k - 1 {
                    assert(is_named_among(b, chunks[c].name));
                } else {
                    assert(r[b.len() as int].name == chunks[c].name);
                }
            }
            r
        }
    }
}

/// `x` is downloaded for one of the first `n` assets.
spec fn below(p: PairView, n: int, x: ChunkView) -> bool {
    exists|f: int, c: int| f < n && is_downloaded(p, f, c) && #[trigger] p.new[f].chunks[c] == x
}

proof fn lemma_assets(s: DiffSizes, head: Seq<ChunkView>, p: PairView, n: int) -> (list: Seq<
    ChunkView,
>)
    requires
        0 <= n <= p.new.len(),
        stands_for(head, s),
    ensures
        stands_for(
            list,
            with_asset_sizes(
                s,
                p.new,
                md5s_below(p.old, Set::empty(), p.old.len() as int),
                content_names(file_chunks(p.old, p.old.len() as int)),
                n,
            ),
        ),
        goes_on(head, list),
        forall|i: int| head.len() <= i < list.len() ==> below(p, n, #[trigger] list[i]),
        forall|x: ChunkView| #[trigger] below(p, n, x) ==> is_named_among(list, x.name),
    decreases n,
{
    if n <= 0 {
        assert(head =~= head.take(head.len() as int));
        assert forall|x: ChunkView| #[trigger] below(p, n, x) implies is_named_among(head, x.name) by {
            let (f, c) = choose|f: int, c: int|
                f < n && is_downloaded(p, f, c) && #[trigger] p.new[f].chunks[c] == x;
            assert(0 <= f);
        }
        head
    } else {
        let all = p.old.len() as int;
        let m = md5s_below(p.old, Set::empty(), all);
        let held = content_names(file_chunks(p.old, all));
        let b = lemma_assets(s, head, p, n - 1);
        let t = with_asset_sizes(s, p.new, m, held, n - 1);
        let a = p.new[n - 1];
        lemma_last_md5(p.old, all, a);
        assert forall|x: ChunkView| below(p, n - 1, x) implies #[trigger] below(p, n, x) by {
            let (f, c) = choose|f: int, c: int|
                f < n - 1 && is_downloaded(p, f, c) && #[trigger] p.new[f].chunks[c] == x;
            assert(p.new[f].chunks[c] == x);
        }
        if a.is_directory() || is_kept(p.old, all, a) {
            assert forall|x: ChunkView| #[trigger] below(p, n, x) implies is_named_among(b, x.name) by {
                let (f, c) = choose|f: int, c: int|
                    f < n && is_downloaded(p, f, c) && #[trigger] p.new[f].chunks[c] == x;
                assert(f < n - 1);
                assert(p.new[f].chunks[c] == x);
                assert(below(p, n - 1, x));
            }
            b
        } else {
            let k = a.chunks.len() as int;
            let r = lemma_chunks(t, b, a.chunks, held, k);
            lemma_goes_on(head, b, r);
            assert forall|c: int| 0 <= c < k implies (held.contains(
                (#[trigger] a.chunks[c]).decompressed_md5,
            ) <==> holds_chunk_content(p.old, all, a.chunks[c].decompressed_md5)) by {
                lemma_content_names(file_chunks(p.old, all), a.chunks[c].decompressed_md5);
                lemma_file_chunks(p.old, all, a.chunks[c].decompressed_md5);
            }
            assert forall|i: int| head.len() <= i < r.len() implies below(p, n, #[trigger] r[i]) by {
                if i < b.len() {
                    assert(r[i] == b[i]);
                    assert(below(p, n - 1, b[i]));
                } else {
                    let c = choose|c: int| 0 <= c < k && #[trigger] a.chunks[c] == r[i];
                    assert(is_downloaded(p, n - 1, c));
                    assert(p.new[n - 1].chunks[c] == r[i]);
                }
            }
            assert forall|x: ChunkView| #[trigger] below(p, n, x) implies is_named_among(r, x.name) by {
                let (f, c) = choose|f: int, c: int|
                    f < n && is_downloaded(p, f, c) && #[trigger] p.new[f].chunks[c] == x;
                if f < n - 1 {
                    assert(p.new[f].chunks[c] == x);
                    assert(below(p, n - 1, x));
                    assert(is_named_among(b, x.name));
                } else {
                    assert(a.chunks[c] == x);
                }
            }
            r
        }
    }
}

proof fn lemma_pairs(v: Seq<PairView>, lang: Seq<char>, n: int) -> (list: Seq<ChunkView>)
    requires
        0 <= n <= v.len(),
    ensures
        stands_for(list, diff_sizes(v, lang, n)),
        is_download_list(v, lang, n, list),
        diff_sizes(v, lang, n).compressed == packed_bytes(list),
        diff_sizes(v, lang, n).decompressed == unpacked_bytes(list),
    decreases n,
{
    if n <= 0 {
        Seq::empty()
    } else {
        let b = lemma_pairs(v, lang, n - 1);
        let p = v[n - 1];
        assert forall|x: ChunkView| update_downloads(v, lang, n - 1, x) implies #[trigger] update_downloads(
            v,
            lang,
            n,
            x,
        ) by {
            let k = choose|k: int|
                0 <= k < n - 1 && wanted(v[k].field, lang) && downloads_chunk(#[trigger] v[k], x);
            assert(downloads_chunk(v[k], x));
        }
        if wanted(p.field, lang) {
            let all = p.new.len() as int;
            let r = lemma_assets(diff_sizes(v, lang, n - 1), b, p, all);
            assert(b =~= b.take(b.len() as int));
            lemma_goes_on(b, b, r);
            assert forall|i: int| 0 <= i < r.len() implies update_downloads(
                v,
                lang,
                n,
                #[trigger] r[i],
            ) by {
                if i < b.len() {
                    assert(r[i] == b[i]);
                    assert(update_downloads(v, lang, n - 1, b[i]));
                } else {
                    assert(below(p, all, r[i]));
                    let (f, c) = choose|f: int, c: int|
                        f < all && is_downloaded(p, f, c) && #[trigger] p.new[f].chunks[c] == r[i];
                    assert(p.new[f].chunks[c] == r[i]);
                    assert(downloads_chunk(v[n - 1], r[i]));
                }
            }
            assert forall|x: ChunkView| #[trigger] update_downloads(v, lang, n, x) implies is_named_among(
                r,
                x.name,
            ) by {
                let k = choose|k: int|
                    0 <= k < n && wanted(v[k].field, lang) && downloads_chunk(#[trigger] v[k], x);
                if k < n - 1 {
                    assert(downloads_chunk(v[k], x));
                    assert(update_downloads(v, lang, n - 1, x));
                    assert(is_named_among(b, x.name));
                } else {
                    let (f, c) = choose|f: int, c: int|
                        is_downloaded(p, f, c) && #[trigger] p.new[f].chunks[c] == x;
                    assert(p.new[f].chunks[c] == x);
                    assert(below(p, all, x));
                }
            }
            r
        } else {
            assert forall|x: ChunkView| #[trigger] update_downloads(v, lang, n, x) implies is_named_among(
                b,
                x.name,
            ) by {
                let k = choose|k: int|
                    0 <= k < n && wanted(v[k].field, lang) && downloads_chunk(#[trigger] v[k], x);
                assert(k < n - 1);
                assert(downloads_chunk(v[k], x));
                assert(update_downloads(v, lang, n - 1, x));
            }
            b
        }
    }
}

/// An update is told exactly where a version is installed that is not the one on
/// offer, with the sizes that it takes, and costs nothing otherwise. A
/// preinstallation is told as downloaded only where it was found, and only one that
/// is offered or that the update would bring; its version is told wherever it is
/// offered or was found for the update.
pub proof fn law_the_state_of_a_game_is_told(
    current: Option<Seq<char>>,
    remote: Seq<char>,
    offered: Option<Seq<char>>,
    update_sizes: (u64, u64),
    offered_sizes: Option<(u64, u64)>,
    found: bool,
)
    ensures
        ({
            let s = update_state(current, remote, offered, update_sizes, offered_sizes, found);
            let behind = current is Some && current->0 != remote;
            &&& s.current_tag == current && s.remote_tag == remote
            &&& s.update_available == behind
            &&& s.update_sizes.0 == if behind { update_sizes.0 } else { 0 }
            &&& s.update_sizes.1 == if behind { update_sizes.1 } else { 0 }
            &&& s.preinstall_available == (offered is Some)
            &&& s.preinstall_downloaded == (found && (offered is Some || behind))
            &&& offered is Some ==> s.preinstall_tag == offered
            &&& offered is None && s.preinstall_downloaded ==> s.preinstall_tag == Some(remote)
            &&& offered is None && !s.preinstall_downloaded ==> s.preinstall_tag is None
            &&& offered is Some && offered_sizes is Some ==> s.preinstall_sizes == offered_sizes->0
            &&& offered is None || offered_sizes is None ==> s.preinstall_sizes == (0u64, 0u64)
        }),
{
}

} // verus!

//! What holds of patches as a whole.

use vstd::prelude::*;
use crate::files::ContentView;
use super::error::HDiffError;
use super::header::CoverHeader;
use super::header::RleRefClip;
use super::parser::lemma_varint_at_bounds;
use super::parser::tag_base;
use super::parser::varint_at;
use super::parser::varint_from;
use super::parser::varint_tail;
use super::parser::StreamView;
use super::parser::Varint;
use super::parser::LONG_CAP;
use super::diff::patch_header;
use super::diff::patch_result;
use super::patch_core::add_bytes;
use super::patch_core::add_value;
use super::patch_core::cache_run;
use super::patch_core::clip_wf;
use super::patch_core::less_copy;
use super::patch_core::less_set;
use super::patch_core::lemma_next_run;
use super::patch_core::lemma_prefixed_twice;
use super::patch_core::lemma_split_copy;
use super::patch_core::lemma_split_set;
use super::patch_core::min;
use super::patch_core::next_run;
use super::patch_core::overwrite;
use super::patch_core::prefixed;
use super::patch_core::rle_run;
use super::patch_core::CacheOut;
use super::patch_core::PatchState;
use super::patch_core::RleOut;
use super::patch_sf::first_rle0;
use super::patch_sf::lemma_length_consumes;
use super::patch_sf::lemma_long_consumes;
use super::patch_sf::lemma_rle0_prefixed_twice;
use super::patch_sf::old_chunks;
use super::patch_sf::rle0_prefixed;
use super::patch_sf::rle0_run;
use super::patch_sf::rle_length;
use super::patch_sf::sf_cover;
use super::patch_sf::Rle0State;
use super::patch_sf::SfState;

verus! {

/// The groups of `h`, each with its continuation bit set. The first byte holds
/// a tag above its payload, which takes `base` values.
pub open spec fn head_groups(tag: int, base: int, h: int) -> Seq<u8>
    decreases h,
{
    if h < base || base < 1 {
        seq![(tag * (2 * base) + base + h) as u8]
    } else {
        head_groups(tag, base, h / 128).push((h % 128 + 128) as u8)
    }
}

/// `v` as an integer of the patch format, with a tag in its first byte. A value
/// that does not fit the first byte takes as many groups as it needs.
pub open spec fn varint_bytes(tag: int, base: int, v: int) -> Seq<u8> {
    if v < base {
        seq![(tag * (2 * base) + v) as u8]
    } else {
        head_groups(tag, base, v / 128).push((v % 128) as u8)
    }
}

proof fn lemma_first_byte(tag: int, base: int, h: int, more: int)
    by (nonlinear_arith)
    requires
        base >= 1,
        0 <= tag,
        0 <= h < base,
        0 <= more <= 1,
    ensures
        (tag * (2 * base) + more * base + h) % base == h,
        (tag * (2 * base) + more * base + h) / base == 2 * tag + more,
        (tag * (2 * base) + more * base + h) / (2 * base) == tag,
{
    let q = 2 * tag + more;
    assert(tag * (2 * base) + more * base + h == q * base + h);
    vstd::arithmetic::div_mod::lemma_fundamental_div_mod_converse(q * base + h, base, q, h);
    vstd::arithmetic::div_mod::lemma_fundamental_div_mod_converse(
        tag * (2 * base) + (more * base + h),
        2 * base,
        tag,
        more * base + h,
    );
}

proof fn lemma_head_groups(tag_bit: u8, tag: int, h: int, rest: Seq<u8>, cap: int)
    requires
        tag_bit <= 7,
        0 <= tag,
        (tag + 1) * (2 * tag_base(tag_bit)) <= 256,
        0 <= h,
        h / 128 <= cap,
    ensures
        ({
            let base = tag_base(tag_bit);
            let g = head_groups(tag, base, h);
            let s = g + rest;
            &&& g.len() >= 1
            &&& (s[0] as int) / (2 * base) == tag
            &&& varint_from(s, 1, tag_bit, s[0], cap) == varint_tail(s, g.len() as int, h, cap)
        }),
    decreases h,
{
    let base = tag_base(tag_bit);
    let g = head_groups(tag, base, h);
    let s = g + rest;
    if h < base {
        lemma_first_byte(tag, base, h, 1);
        assert(0 <= tag * (2 * base) + base + h < 256) by (nonlinear_arith)
            requires
                (tag + 1) * (2 * base) <= 256,
                0 <= tag,
                0 <= h < base,
        ;
        assert(s[0] == (tag * (2 * base) + base + h) as u8);
    } else {
        let rest2 = seq![(h % 128 + 128) as u8] + rest;
        lemma_head_groups(tag_bit, tag, h / 128, rest2, cap);
        let g2 = head_groups(tag, base, h / 128);
        assert(g2 + rest2 =~= s);
        assert(s[g2.len() as int] == (h % 128 + 128) as u8);
        assert((h / 128) * 128 + h % 128 == h);
    }
}

/// Reading an integer gives back what was written, with its tag, and leaves
/// the bytes behind it: for every value of 63 bits, every tag that fits, and
/// whatever follows.
pub proof fn law_varint_round_trip(tag_bit: u8, tag: int, v: int, rest: Seq<u8>)
    requires
        1 <= tag_bit <= 7,
        0 <= tag,
        (tag + 1) * (2 * tag_base(tag_bit)) <= 256,
        0 <= v <= i64::MAX,
    ensures
        ({
            let w = varint_bytes(tag, tag_base(tag_bit), v);
            let s = w + rest;
            &&& (s[0] as int) / (2 * tag_base(tag_bit)) == tag
            &&& varint_at(s, 1, tag_bit, s[0], LONG_CAP as int) == (
                Varint::Value(v as u64),
                w.len() as int,
            )
        }),
{
    lemma_round_trip(tag_bit, tag, v, rest, LONG_CAP as int);
}

/// Reading an integer without a tag gives back what was written, and leaves
/// the bytes behind it.
pub proof fn law_plain_varint_round_trip(v: int, rest: Seq<u8>)
    requires
        0 <= v <= i64::MAX,
    ensures
        ({
            let w = varint_bytes(0, 128, v);
            varint_at(w + rest, 0, 0, 0, LONG_CAP as int) == (
                Varint::Value(v as u64),
                w.len() as int,
            )
        }),
{
    lemma_round_trip(0, 0, v, rest, LONG_CAP as int);
}

/// Reading an integer gives back what was written, whatever the bound that it is
/// read under, as long as it is within that.
pub proof fn lemma_round_trip(tag_bit: u8, tag: int, v: int, rest: Seq<u8>, cap: int)
    requires
        tag_bit <= 7,
        0 <= tag,
        (tag + 1) * (2 * tag_base(tag_bit)) <= 256,
        0 <= v <= i64::MAX,
        LONG_CAP <= cap,
    ensures
        ({
            let w = varint_bytes(tag, tag_base(tag_bit), v);
            let s = w + rest;
            &&& w.len() >= 1
            &&& (s[0] as int) / (2 * tag_base(tag_bit)) == tag
            &&& varint_from(s, 1, tag_bit, s[0], cap) == (
                Varint::Value(v as u64),
                w.len() as int,
            )
        }),
{
    let base = tag_base(tag_bit);
    let w = varint_bytes(tag, base, v);
    let s = w + rest;
    if v < base {
        lemma_first_byte(tag, base, v, 0);
        assert(0 <= tag * (2 * base) + v < 256) by (nonlinear_arith)
            requires
                (tag + 1) * (2 * base) <= 256,
                0 <= tag,
                0 <= v < base,
        ;
        assert(s[0] == (tag * (2 * base) + v) as u8);
    } else {
        let rest2 = seq![(v % 128) as u8] + rest;
        let g = head_groups(tag, base, v / 128);
        lemma_head_groups(tag_bit, tag, v / 128, rest2, cap);
        assert(g + rest2 =~= s);
        assert(s[g.len() as int] == (v % 128) as u8);
        assert((v / 128) * 128 + v % 128 == v);
    }
}

/// Decoding keeps the length of a stretch and leaves well-formed streams.
pub proof fn lemma_run_wf(clip: RleRefClip, ctrl: StreamView, code: StreamView, base: Seq<u8>)
    requires
        clip_wf(clip),
        ctrl.wf(),
        code.wf(),
        rle_run(clip, ctrl, code, base) is Ok,
    ensures
        ({
            let o = rle_run(clip, ctrl, code, base)->Ok_0;
            &&& o.bytes.len() == base.len()
            &&& clip_wf(o.clip)
            &&& o.ctrl.wf()
            &&& o.code.wf()
        }),
    decreases base.len(), (if clip.mem_set_length > 0 || clip.mem_copy_length > 0 { 0int } else { 1int }),
{
    if base.len() == 0 {
    } else if clip.mem_set_length > 0 {
        let n = min(clip.mem_set_length as int, base.len() as int);
        lemma_run_wf(less_set(clip, n), ctrl, code, base.skip(n));
    } else if clip.mem_copy_length > 0 {
        let n = min(clip.mem_copy_length as int, base.len() as int);
        lemma_run_wf(less_copy(clip, n), ctrl, code.at(code.pos + n), base.skip(n));
    } else {
        lemma_next_run(ctrl, code);
        let (run, ctrl2, code2) = next_run(ctrl, code)->Ok_0;
        lemma_run_wf(run, ctrl2, code2, base);
    }
}

/// `then` behind a decoded stretch.
pub open spec fn followed_by(first: Result<RleOut, HDiffError>, second: Seq<u8>) -> Result<
    RleOut,
    HDiffError,
> {
    match first {
        Err(e) => Err(e),
        Ok(o) => prefixed(o.bytes, rle_run(o.clip, o.ctrl, o.code, second)),
    }
}

/// Runs carry over from one stretch to the next: decoding two stretches one
/// after the other is decoding them as one.
pub proof fn law_runs_carry_over(
    clip: RleRefClip,
    ctrl: StreamView,
    code: StreamView,
    a: Seq<u8>,
    b: Seq<u8>,
)
    requires
        clip_wf(clip),
        ctrl.wf(),
        code.wf(),
    ensures
        rle_run(clip, ctrl, code, a + b) == followed_by(rle_run(clip, ctrl, code, a), b),
    decreases a.len(), (if clip.mem_set_length > 0 || clip.mem_copy_length > 0 { 0int } else { 1int }),
{
    if a.len() == 0 {
        assert(a + b =~= b);
        let r = rle_run(clip, ctrl, code, b);
        if r is Ok {
            assert(Seq::<u8>::empty() + r->Ok_0.bytes =~= r->Ok_0.bytes);
        }
    } else if clip.mem_set_length > 0 {
        let n = min(clip.mem_set_length as int, a.len() as int);
        let head = super::patch_core::add_value(a.take(n), clip.mem_set_value);
        lemma_split_set(clip, ctrl, code, a + b, n);
        assert((a + b).take(n) =~= a.take(n));
        assert((a + b).skip(n) =~= a.skip(n) + b);
        law_runs_carry_over(less_set(clip, n), ctrl, code, a.skip(n), b);
        lemma_followed(head, rle_run(less_set(clip, n), ctrl, code, a.skip(n)), b);
    } else if clip.mem_copy_length > 0 {
        let n = min(clip.mem_copy_length as int, a.len() as int);
        lemma_split_copy(clip, ctrl, code, a + b, n);
        if code.left() >= n {
            let head = super::patch_core::add_bytes(code.next_bytes(n), a.take(n));
            assert((a + b).take(n) =~= a.take(n));
            assert((a + b).skip(n) =~= a.skip(n) + b);
            let code2 = code.at(code.pos + n);
            law_runs_carry_over(less_copy(clip, n), ctrl, code2, a.skip(n), b);
            lemma_followed(head, rle_run(less_copy(clip, n), ctrl, code2, a.skip(n)), b);
        }
    } else {
        if next_run(ctrl, code) is Ok {
            lemma_next_run(ctrl, code);
            let (run, ctrl2, code2) = next_run(ctrl, code)->Ok_0;
            law_runs_carry_over(run, ctrl2, code2, a, b);
        }
    }
}

proof fn lemma_followed(head: Seq<u8>, r: Result<RleOut, HDiffError>, b: Seq<u8>)
    ensures
        prefixed(head, followed_by(r, b)) == followed_by(prefixed(head, r), b),
{
    if r is Ok {
        let o = r->Ok_0;
        lemma_prefixed_twice(head, o.bytes, rle_run(o.clip, o.ctrl, o.code, b));
    }
}

/// The base of the new data from the `i`-th cover on: literal bytes up to each
/// cover, the old data under it, and literal bytes behind the last one.
pub open spec fn base_from(
    old: Seq<u8>,
    covers: Seq<CoverHeader>,
    i: int,
    literal: Seq<u8>,
    new_pos: int,
    new_data_size: int,
) -> Seq<u8>
    decreases covers.len() - i,
{
    if i < 0 || i >= covers.len() {
        if new_pos < new_data_size {
            literal.take(new_data_size - new_pos)
        } else {
            Seq::empty()
        }
    } else {
        let c = covers[i];
        let gap = c.new_pos - new_pos;
        literal.take(gap) + (if c.cover_length > 0 {
            old.subrange(c.old_pos as int, c.old_pos + c.cover_length)
        } else {
            Seq::empty()
        }) + base_from(
            old,
            covers,
            i + 1,
            literal.skip(gap),
            c.new_pos + c.cover_length,
            new_data_size,
        )
    }
}

proof fn lemma_set_in_parts(data: Seq<u8>, pos: int, j: int, k: int, v: u8)
    requires
        0 <= pos,
        0 <= j <= k,
        pos + k <= data.len(),
    ensures
        ({
            let d = overwrite(data, pos, add_value(data.subrange(pos, pos + j), v));
            overwrite(d, pos + j, add_value(d.subrange(pos + j, pos + j + (k - j)), v)) == overwrite(
                data,
                pos,
                add_value(data.subrange(pos, pos + k), v),
            )
        }),
{
    let d = overwrite(data, pos, add_value(data.subrange(pos, pos + j), v));
    assert(overwrite(d, pos + j, add_value(d.subrange(pos + j, pos + j + (k - j)), v)) =~= overwrite(
        data,
        pos,
        add_value(data.subrange(pos, pos + k), v),
    ));
}

proof fn lemma_copy_in_parts(data: Seq<u8>, pos: int, j: int, k: int, code: StreamView)
    requires
        0 <= pos,
        0 <= j <= k,
        pos + k <= data.len(),
        code.wf(),
        k <= code.left(),
    ensures
        ({
            let d = overwrite(
                data,
                pos,
                add_bytes(code.next_bytes(j), data.subrange(pos, pos + j)),
            );
            overwrite(
                d,
                pos + j,
                add_bytes(
                    code.at(code.pos + j).next_bytes(k - j),
                    d.subrange(pos + j, pos + j + (k - j)),
                ),
            ) == overwrite(data, pos, add_bytes(code.next_bytes(k), data.subrange(pos, pos + k)))
        }),
{
    let d = overwrite(data, pos, add_bytes(code.next_bytes(j), data.subrange(pos, pos + j)));
    assert(overwrite(
        d,
        pos + j,
        add_bytes(
            code.at(code.pos + j).next_bytes(k - j),
            d.subrange(pos + j, pos + j + (k - j)),
        ),
    ) =~= overwrite(data, pos, add_bytes(code.next_bytes(k), data.subrange(pos, pos + k))));
}

/// Decoding `a` bytes and then `b` succeeds, and comes to the same as decoding all
/// of them at once.
pub open spec fn may_be_split(
    clip: RleRefClip,
    ctrl: StreamView,
    code: StreamView,
    data: Seq<u8>,
    pos: int,
    a: int,
    b: int,
) -> bool {
    cache_run(clip, ctrl, code, data, pos, a) matches Ok(o) && cache_run(
        o.clip,
        o.ctrl,
        o.code,
        o.data,
        pos + a,
        b,
    ) == cache_run(clip, ctrl, code, data, pos, a + b)
}

proof fn lemma_split_run_of_one(
    clip: RleRefClip,
    ctrl: StreamView,
    code: StreamView,
    data: Seq<u8>,
    pos: int,
    a: int,
    b: int,
)
    requires
        clip_wf(clip),
        0 <= pos,
        0 < a < clip.mem_set_length,
        0 < b,
        cache_run(clip, ctrl, code, data, pos, a + b) is Ok,
    ensures
        may_be_split(clip, ctrl, code, data, pos, a, b),
{
    let v = clip.mem_set_value;
    let k = min(clip.mem_set_length as int, a + b);
    let c = less_set(clip, a);
    let d = if v == 0 {
        data
    } else {
        overwrite(data, pos, add_value(data.subrange(pos, pos + a), v))
    };
    assert(less_set(c, k - a) == less_set(clip, k));
    if v != 0 {
        assert(pos + k <= data.len());
        assert(d.len() == data.len());
        lemma_set_in_parts(data, pos, a, k, v);
    }
    assert(cache_run(c, ctrl, code, d, pos + a, 0) == Ok::<CacheOut, HDiffError>(
        CacheOut { data: d, clip: c, ctrl, code },
    ));
    assert(cache_run(clip, ctrl, code, data, pos, a) == cache_run(c, ctrl, code, d, pos + a, 0));
    assert(min(c.mem_set_length as int, b) == k - a);
    assert(cache_run(c, ctrl, code, d, pos + a, b) == cache_run(
        clip,
        ctrl,
        code,
        data,
        pos,
        a + b,
    ));
}

proof fn lemma_split_run_of_codes(
    clip: RleRefClip,
    ctrl: StreamView,
    code: StreamView,
    data: Seq<u8>,
    pos: int,
    a: int,
    b: int,
)
    requires
        clip_wf(clip),
        clip.mem_set_length == 0,
        code.wf(),
        0 <= pos,
        0 < a < clip.mem_copy_length,
        0 < b,
        cache_run(clip, ctrl, code, data, pos, a + b) is Ok,
    ensures
        may_be_split(clip, ctrl, code, data, pos, a, b),
{
    let k = min(clip.mem_copy_length as int, a + b);
    let c = less_copy(clip, a);
    let d = overwrite(data, pos, add_bytes(code.next_bytes(a), data.subrange(pos, pos + a)));
    let code2 = code.at(code.pos + a);
    assert(less_copy(c, k - a) == less_copy(clip, k));
    assert(code.left() >= k && pos + k <= data.len());
    assert(code2.at(code2.pos + (k - a)) == code.at(code.pos + k));
    assert(d.len() == data.len());
    lemma_copy_in_parts(data, pos, a, k, code);
    assert(cache_run(c, ctrl, code2, d, pos + a, 0) == Ok::<CacheOut, HDiffError>(
        CacheOut { data: d, clip: c, ctrl, code: code2 },
    ));
    assert(cache_run(clip, ctrl, code, data, pos, a) == cache_run(c, ctrl, code2, d, pos + a, 0));
    assert(min(c.mem_copy_length as int, b) == k - a);
    assert(cache_run(c, ctrl, code2, d, pos + a, b) == cache_run(
        clip,
        ctrl,
        code,
        data,
        pos,
        a + b,
    ));
}

/// A stretch may be decoded in two parts, wherever it stands: where decoding
/// `a + b` bytes at once succeeds, decoding `a` bytes and then `b` succeeds too,
/// and leaves the same cache, the same runs under way and the same streams.
pub proof fn law_stretches_may_be_split(
    clip: RleRefClip,
    ctrl: StreamView,
    code: StreamView,
    data: Seq<u8>,
    pos: int,
    a: int,
    b: int,
)
    requires
        clip_wf(clip),
        ctrl.wf(),
        code.wf(),
        0 <= pos,
        0 <= a,
        0 <= b,
        cache_run(clip, ctrl, code, data, pos, a + b) is Ok,
    ensures
        may_be_split(clip, ctrl, code, data, pos, a, b),
    decreases a, (if clip.mem_set_length > 0 || clip.mem_copy_length > 0 { 0int } else { 1int }),
{
    if a == 0 {
    } else if b == 0 {
        let o = cache_run(clip, ctrl, code, data, pos, a)->Ok_0;
        assert(cache_run(o.clip, o.ctrl, o.code, o.data, pos + a, 0) == Ok::<CacheOut, HDiffError>(
            o,
        ));
    } else if clip.mem_set_length > 0 {
        let n = clip.mem_set_length as int;
        if a < n {
            lemma_split_run_of_one(clip, ctrl, code, data, pos, a, b);
        } else {
            let v = clip.mem_set_value;
            let d = if v == 0 {
                data
            } else {
                overwrite(data, pos, add_value(data.subrange(pos, pos + n), v))
            };
            let c = less_set(clip, n);
            assert(cache_run(clip, ctrl, code, data, pos, a + b) == cache_run(
                c,
                ctrl,
                code,
                d,
                pos + n,
                (a - n) + b,
            ));
            law_stretches_may_be_split(c, ctrl, code, d, pos + n, a - n, b);
        }
    } else if clip.mem_copy_length > 0 {
        let n = clip.mem_copy_length as int;
        if a < n {
            lemma_split_run_of_codes(clip, ctrl, code, data, pos, a, b);
        } else {
            let d = overwrite(
                data,
                pos,
                add_bytes(code.next_bytes(n), data.subrange(pos, pos + n)),
            );
            let code2 = code.at(code.pos + n);
            let c = less_copy(clip, n);
            assert(cache_run(clip, ctrl, code, data, pos, a + b) == cache_run(
                c,
                ctrl,
                code2,
                d,
                pos + n,
                (a - n) + b,
            ));
            law_stretches_may_be_split(c, ctrl, code2, d, pos + n, a - n, b);
        }
    } else {
        lemma_next_run(ctrl, code);
        let (run, ctrl2, code2) = next_run(ctrl, code)->Ok_0;
        law_stretches_may_be_split(run, ctrl2, code2, data, pos, a, b);
    }
}

/// The literal bytes that are not used yet.
pub open spec fn unread(s: StreamView) -> Seq<u8> {
    s.data.subrange(s.pos, s.data.len() as int)
}

/// The new data of a sectioned patch is its base with the runs added to it, as
/// one stretch from first to last byte, and it is as long as the header says.
pub proof fn law_new_data_is_base_plus_runs(
    st: PatchState,
    old: Seq<u8>,
    covers: Seq<CoverHeader>,
    i: int,
    new_data_size: int,
)
    requires
        clip_wf(st.clip),
        st.ctrl.wf(),
        st.code.wf(),
        st.diff.wf(),
        st.out.len() == st.new_pos_back,
        0 <= i <= covers.len(),
        st.new_pos_back <= new_data_size,
        st.apply_covers(old, covers, i, new_data_size) is Ok,
    ensures
        ({
            let base = base_from(
                old,
                covers,
                i,
                unread(st.diff),
                st.new_pos_back,
                new_data_size,
            );
            let end = st.apply_covers(old, covers, i, new_data_size)->Ok_0;
            &&& rle_run(st.clip, st.ctrl, st.code, base) matches Ok(o)
            &&& end.out == st.out + o.bytes
            &&& end.out.len() == new_data_size
        }),
    decreases covers.len() - i,
{
    let base = base_from(old, covers, i, unread(st.diff), st.new_pos_back, new_data_size);
    if i >= covers.len() {
        if st.new_pos_back < new_data_size {
            let n = new_data_size - st.new_pos_back;
            assert(st.diff.next_bytes(n) =~= unread(st.diff).take(n));
            lemma_run_wf(st.clip, st.ctrl, st.code, base);
        } else {
            assert(st.out + Seq::<u8>::empty() =~= st.out);
        }
    } else {
        let c = covers[i];
        let gap = c.new_pos - st.new_pos_back;
        let s1 = st.apply_cover(old, c, new_data_size)->Ok_0;
        let lit = unread(st.diff).take(gap);
        let s0 = if gap > 0 {
            st.add_literal(gap)->Ok_0
        } else {
            st
        };
        assert(lit =~= st.diff.next_bytes(gap));
        if gap == 0 {
            assert(lit =~= Seq::<u8>::empty());
            assert(st.out + Seq::<u8>::empty() =~= st.out);
        }
        lemma_run_wf(st.clip, st.ctrl, st.code, lit);
        let o0 = rle_run(st.clip, st.ctrl, st.code, lit)->Ok_0;
        assert(s0.out == st.out + o0.bytes);
        assert(s0.clip == o0.clip && s0.ctrl == o0.ctrl && s0.code == o0.code);
        assert(unread(s0.diff) =~= unread(st.diff).skip(gap));
        let piece = if c.cover_length > 0 {
            old.subrange(c.old_pos as int, c.old_pos + c.cover_length)
        } else {
            Seq::empty()
        };
        lemma_run_wf(s0.clip, s0.ctrl, s0.code, piece);
        let o1 = rle_run(s0.clip, s0.ctrl, s0.code, piece)->Ok_0;
        assert(s1.out == s0.out + o1.bytes);
        law_new_data_is_base_plus_runs(s1, old, covers, i + 1, new_data_size);
        let tail = base_from(
            old,
            covers,
            i + 1,
            unread(s1.diff),
            s1.new_pos_back,
            new_data_size,
        );
        let o2 = rle_run(s1.clip, s1.ctrl, s1.code, tail)->Ok_0;
        law_runs_carry_over(st.clip, st.ctrl, st.code, lit, piece);
        law_runs_carry_over(st.clip, st.ctrl, st.code, lit + piece, tail);
        assert(base == lit + piece + tail);
        let end = st.apply_covers(old, covers, i, new_data_size)->Ok_0;
        assert(end.out =~= st.out + (o0.bytes + o1.bytes + o2.bytes));
    }
}

/// A state of the differences that can be reached.
pub open spec fn rle0_wf(s: Rle0State) -> bool {
    0 <= s.pos <= s.buf.len() && 0 <= s.len0 && 0 <= s.lenv
}

proof fn lemma_split_unchanged(s: Rle0State, base: Seq<u8>, k: int)
    requires
        rle0_wf(s),
        0 < k <= s.len0,
        k <= base.len(),
    ensures
        rle0_run(s, base) == rle0_prefixed(
            base.take(k),
            rle0_run(Rle0State { len0: s.len0 - k, ..s }, base.skip(k)),
        ),
{
    let n = min(s.len0, base.len() as int);
    let mid = Rle0State { len0: s.len0 - k, ..s };
    let end = Rle0State { len0: s.len0 - n, ..s };
    let rest = base.skip(k);
    if k < n {
        assert(min(mid.len0, rest.len() as int) == n - k);
        assert(rest.skip(n - k) =~= base.skip(n));
        assert(base.take(k) + rest.take(n - k) =~= base.take(n));
        lemma_rle0_prefixed_twice(base.take(k), rest.take(n - k), rle0_run(end, base.skip(n)));
    }
}

proof fn lemma_split_changed(s: Rle0State, base: Seq<u8>, k: int)
    requires
        rle0_wf(s),
        s.len0 == 0,
        0 < k <= s.lenv,
        k <= base.len(),
        s.lenv <= s.buf.len() - s.pos,
    ensures
        rle0_run(s, base) == rle0_prefixed(
            add_bytes(base.take(k), s.buf.subrange(s.pos, s.pos + k)),
            rle0_run(Rle0State { pos: s.pos + k, lenv: s.lenv - k, ..s }, base.skip(k)),
        ),
{
    let n = min(s.lenv, base.len() as int);
    let mid = Rle0State { pos: s.pos + k, lenv: s.lenv - k, ..s };
    let end = Rle0State { pos: s.pos + n, lenv: s.lenv - n, ..s };
    let rest = base.skip(k);
    if k < n {
        assert(min(mid.lenv, rest.len() as int) == n - k);
        assert(rest.skip(n - k) =~= base.skip(n));
        let head = add_bytes(base.take(k), s.buf.subrange(s.pos, s.pos + k));
        let more = add_bytes(rest.take(n - k), s.buf.subrange(s.pos + k, s.pos + n));
        assert(head + more =~= add_bytes(base.take(n), s.buf.subrange(s.pos, s.pos + n)));
        lemma_rle0_prefixed_twice(head, more, rle0_run(end, base.skip(n)));
    }
}

/// The differences added to `second` behind what came of the stretch before it.
pub open spec fn rle0_followed_by(
    first: Result<(Seq<u8>, Rle0State), HDiffError>,
    second: Seq<u8>,
) -> Result<(Seq<u8>, Rle0State), HDiffError> {
    match first {
        Err(e) => Err(e),
        Ok((bytes, s)) => rle0_prefixed(bytes, rle0_run(s, second)),
    }
}

proof fn lemma_rle0_followed(
    head: Seq<u8>,
    r: Result<(Seq<u8>, Rle0State), HDiffError>,
    b: Seq<u8>,
)
    ensures
        rle0_prefixed(head, rle0_followed_by(r, b)) == rle0_followed_by(rle0_prefixed(head, r), b),
{
    if r is Ok {
        let (bytes, s) = r->Ok_0;
        lemma_rle0_prefixed_twice(head, bytes, rle0_run(s, b));
    }
}

/// Differences carry over from one stretch to the next: decoding two stretches
/// one after the other is decoding them as one. What is decoded is as long as
/// what it is added to.
pub proof fn law_differences_carry_over(s: Rle0State, a: Seq<u8>, b: Seq<u8>)
    requires
        rle0_wf(s),
    ensures
        rle0_run(s, a + b) == rle0_followed_by(rle0_run(s, a), b),
        rle0_run(s, a) matches Ok((bytes, t)) ==> bytes.len() == a.len() && rle0_wf(t),
    decreases a.len(), s.buf.len() - s.pos,
{
    if a.len() == 0 {
        assert(a + b =~= b);
        let r = rle0_run(s, b);
        if r is Ok {
            assert(Seq::<u8>::empty() + r->Ok_0.0 =~= r->Ok_0.0);
        }
    } else if s.len0 > 0 {
        let n = min(s.len0, a.len() as int);
        let t = Rle0State { len0: s.len0 - n, ..s };
        lemma_split_unchanged(s, a + b, n);
        assert((a + b).take(n) =~= a.take(n));
        assert((a + b).skip(n) =~= a.skip(n) + b);
        law_differences_carry_over(t, a.skip(n), b);
        lemma_rle0_followed(a.take(n), rle0_run(t, a.skip(n)), b);
    } else if s.lenv > 0 {
        if s.lenv <= s.buf.len() - s.pos {
            let n = min(s.lenv, a.len() as int);
            let t = Rle0State { pos: s.pos + n, lenv: s.lenv - n, ..s };
            lemma_split_changed(s, a + b, n);
            assert((a + b).take(n) =~= a.take(n));
            assert((a + b).skip(n) =~= a.skip(n) + b);
            law_differences_carry_over(t, a.skip(n), b);
            let head = add_bytes(a.take(n), s.buf.subrange(s.pos, s.pos + n));
            lemma_rle0_followed(head, rle0_run(t, a.skip(n)), b);
        }
    } else {
        let (len, end) = rle_length(s.buf, s.pos);
        lemma_length_consumes(s.buf, s.pos);
        if len is Some {
            let v = len->0 as int;
            let t = if s.need_decode0 {
                Rle0State { pos: end, len0: v, need_decode0: false, ..s }
            } else {
                Rle0State { pos: end, lenv: v, need_decode0: true, ..s }
            };
            law_differences_carry_over(t, a, b);
        }
    }
}

/// The size of the pieces in which old data is taken makes no difference: a
/// stretch that lies in the old data is decoded as if it were taken at once.
pub proof fn law_piece_size_is_immaterial(
    old: Seq<u8>,
    pos: int,
    rem: int,
    chunk: int,
    rle: Rle0State,
)
    requires
        rle0_wf(rle),
        chunk > 0,
        0 <= pos,
        0 <= rem,
        pos + rem <= old.len(),
    ensures
        old_chunks(old, pos, rem, chunk, rle) == rle0_run(rle, old.subrange(pos, pos + rem)),
    decreases rem,
{
    let whole = old.subrange(pos, pos + rem);
    if rem > 0 {
        let take = min(chunk, rem);
        let a = old.subrange(pos, pos + take);
        let b = old.subrange(pos + take, pos + rem);
        assert(whole =~= a + b);
        law_differences_carry_over(rle, a, b);
        if rle0_run(rle, a) is Ok {
            let (bytes, t) = rle0_run(rle, a)->Ok_0;
            law_piece_size_is_immaterial(old, pos + take, rem - take, chunk, t);
        }
    }
}

/// Taken in pieces, a stretch keeps its length.
proof fn lemma_chunks_length(old: Seq<u8>, pos: int, rem: int, chunk: int, rle: Rle0State)
    requires
        rle0_wf(rle),
        chunk > 0,
        0 <= pos,
        0 <= rem,
    ensures
        old_chunks(old, pos, rem, chunk, rle) matches Ok((bytes, t)) ==> bytes.len() == rem
            && rle0_wf(t),
    decreases rem,
{
    if rem > 0 {
        let take = min(chunk, rem);
        if pos + take <= old.len() {
            let a = old.subrange(pos, pos + take);
            law_differences_carry_over(rle, a, Seq::empty());
            if rle0_run(rle, a) is Ok {
                let (bytes, t) = rle0_run(rle, a)->Ok_0;
                lemma_chunks_length(old, pos + take, rem - take, chunk, t);
            }
        }
    }
}

/// The covers of a step extend the output up to the end of the last of them.
proof fn lemma_covers_length(
    st: SfState,
    old: Seq<u8>,
    covers: StreamView,
    rle: Rle0State,
    chunk: int,
)
    requires
        covers.wf(),
        st.diff.wf(),
        rle0_wf(rle),
        chunk > 0,
        st.out.len() == st.new_end,
    ensures
        st.covers(old, covers, rle, chunk) matches Ok(t) ==> t.out.len() == t.new_end
            && t.diff.wf() && t.diff.left() <= st.diff.left(),
    decreases covers.left(),
{
    if covers.left() > 0 && st.left > 0 && st.cover(old, covers, rle, chunk) is Ok {
        let (s, rest, rle2) = st.cover(old, covers, rle, chunk)->Ok_0;
        let (c, _) = sf_cover(covers, st.old_end, st.new_end)->Ok_0;
        lemma_sf_cover(covers, st.old_end, st.new_end);
        if c.length > 0 {
            lemma_chunks_length(old, c.old_pos, c.length, chunk, rle);
        }
        lemma_covers_length(s, old, rest, rle2, chunk);
    }
}

/// A cover starts behind the last one and takes at least a byte of the list.
proof fn lemma_sf_cover(covers: StreamView, last_old_end: int, last_new_end: int)
    requires
        covers.wf(),
        sf_cover(covers, last_old_end, last_new_end) is Ok,
    ensures
        ({
            let (c, rest) = sf_cover(covers, last_old_end, last_new_end)->Ok_0;
            &&& c.old_pos >= 0
            &&& c.new_pos >= last_new_end
            &&& c.length >= 0
            &&& c.old_end == c.old_pos + c.length
            &&& c.new_end == c.new_pos + c.length
            &&& rest.wf()
            &&& rest.left() < covers.left()
        }),
{
    let first = covers.data[covers.pos];
    let s1 = covers.at(covers.pos + 1);
    lemma_varint_at_bounds(s1.data, s1.pos, 1, first, LONG_CAP as int);
    let c1 = s1.long_7bit(1, first).1;
    lemma_long_consumes(c1);
    lemma_long_consumes(c1.long_7bit(0, 0).1);
    lemma_varint_at_bounds(c1.data, c1.pos, 0, 0, LONG_CAP as int);
    let c2 = c1.long_7bit(0, 0).1;
    lemma_varint_at_bounds(c2.data, c2.pos, 0, 0, LONG_CAP as int);
}

/// A patch in one stream makes all of the new data: the output reaches the
/// stated size, and goes beyond it only where a cover does.
pub proof fn law_steps_reach_the_new_size(
    st: SfState,
    old: Seq<u8>,
    new_data_size: int,
    chunk: int,
)
    requires
        st.diff.wf(),
        chunk > 0,
        st.out.len() == st.new_end,
    ensures
        st.steps(old, new_data_size, chunk) matches Ok(t) ==> t.out.len() == if t.new_end
            < new_data_size {
            new_data_size
        } else {
            t.new_end
        },
    decreases st.diff.left(),
{
    if st.left > 0 && st.step(old, chunk) is Ok {
        let d0 = st.diff;
        lemma_long_consumes(d0);
        let d1 = d0.long_7bit(0, 0).1;
        lemma_long_consumes(d1);
        let d2 = d1.long_7bit(0, 0).1;
        lemma_varint_at_bounds(d0.data, d0.pos, 0, 0, LONG_CAP as int);
        lemma_varint_at_bounds(d1.data, d1.pos, 0, 0, LONG_CAP as int);
        let a = d0.long_7bit(0, 0).0->Ok_0 as int;
        let b = d1.long_7bit(0, 0).0->Ok_0 as int;
        let s = SfState { diff: d2.at(d2.pos + a + b), ..st };
        let covers = StreamView {
            data: d2.data.subrange(d2.pos, d2.pos + a),
            pos: 0,
            damaged: false,
        };
        let rle = first_rle0(d2.data.subrange(d2.pos + a, d2.pos + a + b));
        lemma_covers_length(s, old, covers, rle, chunk);
        law_steps_reach_the_new_size(st.step(old, chunk)->Ok_0, old, new_data_size, chunk);
    }
}

/// A patch is applied only to old data that can be read and has the size that it
/// was made for, and what comes of it has the size that its header states.
pub proof fn law_sizes_are_checked(
    source_path: Seq<char>,
    dest_path: Seq<char>,
    same_file: bool,
    source: ContentView,
    diff: ContentView,
)
    requires
        patch_result(source_path, dest_path, same_file, source, diff) is Ok,
    ensures
        !same_file,
        source_path != dest_path,
        ({
            let (data, _) = patch_result(source_path, dest_path, same_file, source, diff)->Ok_0;
            &&& diff matches ContentView::Bytes(file)
            &&& patch_header(file) matches Ok(h)
            &&& data.len() as i64 == h.new_data_size
            &&& source matches ContentView::Bytes(old) ==> old.len() as i64 == h.old_data_size
            &&& source is Missing ==> h.old_data_size == 0
            &&& source !is Unreadable
        }),
{
}

} // verus!

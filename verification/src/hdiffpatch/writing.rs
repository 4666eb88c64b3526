//! How a patch in one stream is written, and what applying it gives.

use vstd::prelude::*;
use crate::files::ContentView;
use crate::text::digits_value;
use crate::text::find_from;
use crate::text::lower_chars;
use crate::text::parse_digits;
use crate::text::split_on;
use super::compression::clip_stream;
use super::compression::file_range;
use super::compression_mode::mode_of_name;
use super::compression_mode::CompressionMode;
use super::diff::from_first_digit;
use super::diff::header_line;
use super::diff::longs;
use super::diff::patch_header;
use super::diff::patch_result;
use super::diff::patched;
use super::error::HDiffError;
use super::header::empty_chunk_info;
use super::header::DiffChunkInfo;
use super::header::DiffSingleChunkInfo;
use super::header::HeaderInfo;
use super::laws::law_piece_size_is_immaterial;
use super::laws::lemma_round_trip;
use super::laws::unread;
use super::laws::varint_bytes;
use super::parser::lemma_null_index;
use super::parser::null_index;
use super::parser::tag_base;
use super::parser::varint_at;
use super::parser::varint_from;
use super::parser::varint_tail;
use super::parser::StreamView;
use super::parser::Varint;
use super::parser::LONG_CAP;
use super::patch_sf::first_rle0;
use super::patch_sf::first_sf_state;
use super::patch_sf::rle0_run;
use super::patch_sf::rle_length;
use super::patch_sf::sf_cover;
use super::patch_sf::single_stream_output;
use super::patch_sf::step_limit;
use super::patch_sf::Rle0State;
use super::patch_sf::SfCover;
use super::patch_sf::SfState;
use super::patch_sf::MAX_STEP_SIZE;
use super::patch_sf::RLE_CAP;
use super::patch_single::unsigned_bits;

verus! {

/// An integer without a tag.
pub open spec fn plain(v: int) -> Seq<u8> {
    varint_bytes(0, 128, v)
}

/// The way from one position to another, with its sign as a tag.
pub open spec fn signed(from: int, to: int) -> Seq<u8> {
    if from <= to {
        varint_bytes(0, 64, to - from)
    } else {
        varint_bytes(1, 64, from - to)
    }
}

proof fn lemma_tail_shift(pre: Seq<u8>, s: Seq<u8>, p: int, acc: int, cap: int)
    requires
        0 <= p,
    ensures
        varint_tail(pre + s, pre.len() + p, acc, cap) == (
            varint_tail(s, p, acc, cap).0,
            pre.len() + varint_tail(s, p, acc, cap).1,
        ),
    decreases s.len() - p,
{
    if acc <= cap && p < s.len() {
        assert((pre + s)[pre.len() + p] == s[p]);
        if s[p] >= 128 {
            lemma_tail_shift(pre, s, p + 1, acc * 128 + s[p] % 128, cap);
        }
    }
}

pub proof fn lemma_from_shift(pre: Seq<u8>, s: Seq<u8>, p: int, tag_bit: u8, first: u8, cap: int)
    requires
        0 <= p,
    ensures
        varint_from(pre + s, pre.len() + p, tag_bit, first, cap) == (
            varint_from(s, p, tag_bit, first, cap).0,
            pre.len() + varint_from(s, p, tag_bit, first, cap).1,
        ),
{
    lemma_tail_shift(pre, s, p, (first as int) % tag_base(tag_bit), cap);
}

/// An integer stands at `pos` in `data`, with `rest` behind it.
proof fn lemma_plain_at(data: Seq<u8>, pos: int, v: int, rest: Seq<u8>, cap: int)
    requires
        0 <= pos <= data.len(),
        0 <= v <= i64::MAX,
        LONG_CAP <= cap,
        data.skip(pos) == plain(v) + rest,
    ensures
        plain(v).len() >= 1,
        varint_at(data, pos, 0, 0, cap) == (Varint::Value(v as u64), pos + plain(v).len()),
        pos + plain(v).len() <= data.len(),
        data.skip(pos + plain(v).len()) == rest,
{
    let s = plain(v) + rest;
    lemma_round_trip(0, 0, v, rest, cap);
    assert(data =~= data.take(pos) + s);
    lemma_from_shift(data.take(pos), s, 1, 0, s[0], cap);
    assert(data[pos] == s[0]);
    assert(data.skip(pos + plain(v).len()) =~= rest);
}

/// Reading an integer that was written gives it back.
pub proof fn lemma_read_plain(s: StreamView, v: int, rest: Seq<u8>)
    requires
        s.wf(),
        0 <= v <= i64::MAX,
        unread(s) == plain(v) + rest,
    ensures
        ({
            let t = s.at(s.pos + plain(v).len());
            &&& s.long_7bit(0, 0) == (Ok::<i64, HDiffError>(v as i64), t)
            &&& t.wf()
            &&& unread(t) == rest
            &&& plain(v).len() >= 1
        }),
{
    assert(s.data.skip(s.pos) =~= unread(s));
    lemma_plain_at(s.data, s.pos, v, rest, LONG_CAP as int);
    assert(s.data.skip(s.pos + plain(v).len()) =~= unread(s.at(s.pos + plain(v).len())));
}

/// Reading a length that was written gives it back.
proof fn lemma_read_length(buf: Seq<u8>, pos: int, v: int, rest: Seq<u8>)
    requires
        0 <= pos <= buf.len(),
        0 <= v <= i64::MAX,
        v <= usize::MAX,
        buf.skip(pos) == plain(v) + rest,
    ensures
        plain(v).len() >= 1,
        rle_length(buf, pos) == (Some(v as usize), pos + plain(v).len()),
        pos + plain(v).len() <= buf.len(),
        buf.skip(pos + plain(v).len()) == rest,
{
    lemma_plain_at(buf, pos, v, rest, RLE_CAP as int);
}

/// Reading a signed distance that was written gives it back.
pub proof fn lemma_read_signed(s: StreamView, from: int, to: int, rest: Seq<u8>)
    requires
        s.wf(),
        0 <= from <= i64::MAX,
        0 <= to <= i64::MAX,
        unread(s) == signed(from, to) + rest,
    ensures
        s.left() > 0,
        ({
            let first = s.data[s.pos];
            let w = signed(from, to);
            let d = if from <= to {
                to - from
            } else {
                from - to
            };
            let t = s.at(s.pos + w.len());
            &&& first < 128 <==> from <= to
            &&& s.at(s.pos + 1).long_7bit(1, first) == (Ok::<i64, HDiffError>(d as i64), t)
            &&& t.wf()
            &&& unread(t) == rest
            &&& w.len() >= 1
        }),
{
    let w = signed(from, to);
    let tag: int = if from <= to {
        0
    } else {
        1
    };
    let d = if from <= to {
        to - from
    } else {
        from - to
    };
    let u = w + rest;
    lemma_round_trip(1, tag, d, rest, LONG_CAP as int);
    assert(w == varint_bytes(tag, tag_base(1), d));
    let pre = s.data.take(s.pos);
    assert(s.data =~= pre + u);
    assert(s.data[s.pos] == u[0]);
    lemma_from_shift(pre, u, 1, 1, u[0], LONG_CAP as int);
    assert(unread(s.at(s.pos + w.len())) =~= rest);
    assert((u[0] as int) / 128 == tag);
    assert(s.at(s.pos + 1).at(s.pos + w.len()) == s.at(s.pos + w.len()));
    assert(varint_at(s.data, s.pos + 1, 1, u[0], LONG_CAP as int) == (
        Varint::Value(d as u64),
        s.pos + w.len(),
    ));
}

/// A stretch of the new data that stands in the old data too.
pub ghost struct Match {
    pub old_pos: int,
    pub new_pos: int,
    pub length: int,
}

/// The two stretches of a match are inside the data, and hold the same bytes.
pub open spec fn is_match(old: Seq<u8>, new: Seq<u8>, m: Match) -> bool {
    &&& 0 < m.length
    &&& 0 <= m.old_pos
    &&& m.old_pos + m.length <= old.len()
    &&& 0 <= m.new_pos
    &&& m.new_pos + m.length <= new.len()
    &&& old.subrange(m.old_pos, m.old_pos + m.length) == new.subrange(
        m.new_pos,
        m.new_pos + m.length,
    )
}

/// Some matches between old and new data, which follow each other in the new.
pub open spec fn are_matches(old: Seq<u8>, new: Seq<u8>, ms: Seq<Match>) -> bool {
    &&& forall|i: int| 0 <= i < ms.len() ==> is_match(old, new, #[trigger] ms[i])
    &&& forall|i: int, j: int|
        0 <= i < j < ms.len() ==> (#[trigger] ms[i]).new_pos + ms[i].length <= (
        #[trigger] ms[j]).new_pos
}

/// The end of the match before the `i`-th in the old data.
pub open spec fn old_end(ms: Seq<Match>, i: int) -> int {
    if i <= 0 {
        0
    } else {
        ms[i - 1].old_pos + ms[i - 1].length
    }
}

/// The end of the match before the `i`-th in the new data.
pub open spec fn new_end(ms: Seq<Match>, i: int) -> int {
    if i <= 0 {
        0
    } else {
        ms[i - 1].new_pos + ms[i - 1].length
    }
}

/// The covers for the matches from the `i`-th on.
pub open spec fn cover_bytes(ms: Seq<Match>, i: int) -> Seq<u8>
    decreases ms.len() - i,
{
    if i >= ms.len() {
        Seq::empty()
    } else {
        signed(old_end(ms, i), ms[i].old_pos) + (plain(ms[i].new_pos - new_end(ms, i)) + (plain(
            ms[i].length,
        ) + cover_bytes(ms, i + 1)))
    }
}

/// The differences of the matches from the `i`-th on: all of their bytes are
/// unchanged.
pub open spec fn difference_bytes(ms: Seq<Match>, i: int) -> Seq<u8>
    decreases ms.len() - i,
{
    if i >= ms.len() {
        Seq::empty()
    } else {
        plain(ms[i].length) + (plain(0) + difference_bytes(ms, i + 1))
    }
}

/// The new data outside the matches, from the end of the match before the `i`-th
/// on.
pub open spec fn literal_bytes(new: Seq<u8>, ms: Seq<Match>, i: int) -> Seq<u8>
    decreases ms.len() - i,
{
    if i >= ms.len() {
        new.skip(new_end(ms, i))
    } else {
        new.subrange(new_end(ms, i), ms[i].new_pos) + literal_bytes(new, ms, i + 1)
    }
}

/// The decoding of differences stands between two matches.
spec fn between(rle: Rle0State, ms: Seq<Match>, i: int) -> bool {
    &&& rle.len0 == 0
    &&& rle.lenv == 0
    &&& 0 <= rle.pos <= rle.buf.len()
    &&& rle.buf.skip(rle.pos) == if rle.need_decode0 {
        difference_bytes(ms, i)
    } else {
        plain(0) + difference_bytes(ms, i)
    }
}

proof fn lemma_unchanged(rle: Rle0State, ms: Seq<Match>, i: int, base: Seq<u8>)
    requires
        0 <= i < ms.len(),
        between(rle, ms, i),
        base.len() == ms[i].length,
        0 < ms[i].length <= i64::MAX,
        ms[i].length <= usize::MAX,
    ensures
        rle0_run(rle, base) matches Ok((bytes, next)) && bytes == base && between(next, ms, i + 1),
    decreases (if rle.need_decode0 { 0int } else { 1int }),
{
    if rle.need_decode0 {
        let rest = plain(0) + difference_bytes(ms, i + 1);
        lemma_read_length(rle.buf, rle.pos, ms[i].length, rest);
        let end = rle.pos + plain(ms[i].length).len();
        let s = Rle0State { pos: end, len0: ms[i].length, need_decode0: false, ..rle };
        let t = Rle0State { len0: 0, ..s };
        assert(base.take(base.len() as int) =~= base);
        assert(base.skip(base.len() as int).len() == 0);
        assert(rle0_run(t, base.skip(base.len() as int)) == Ok::<
            (Seq<u8>, Rle0State),
            HDiffError,
        >((Seq::empty(), t)));
        assert(base + Seq::<u8>::empty() =~= base);
        assert(rle0_run(s, base) == Ok::<(Seq<u8>, Rle0State), HDiffError>((base, t)));
        assert(rle0_run(rle, base) == rle0_run(s, base));
    } else {
        let rest = difference_bytes(ms, i);
        lemma_read_length(rle.buf, rle.pos, 0, rest);
        let end = rle.pos + plain(0).len();
        let s = Rle0State { pos: end, lenv: 0, need_decode0: true, ..rle };
        lemma_unchanged(s, ms, i, base);
        assert(rle0_run(rle, base) == rle0_run(s, base));
    }
}

/// Applying stands between two matches: all of the new data before the `i`-th is
/// made.
spec fn made_up_to(st: SfState, new: Seq<u8>, ms: Seq<Match>, i: int) -> bool {
    &&& st.diff.wf()
    &&& unread(st.diff) == literal_bytes(new, ms, i)
    &&& st.old_end == old_end(ms, i)
    &&& st.new_end == new_end(ms, i)
    &&& st.left == ms.len() - i
    &&& st.out == new.take(new_end(ms, i))
}

proof fn lemma_read_cover(
    old: Seq<u8>,
    new: Seq<u8>,
    ms: Seq<Match>,
    i: int,
    covers: StreamView,
) -> (rest: StreamView)
    requires
        are_matches(old, new, ms),
        0 <= i < ms.len(),
        old.len() <= i64::MAX,
        new.len() <= i64::MAX,
        covers.wf(),
        unread(covers) == cover_bytes(ms, i),
    ensures
        rest.wf(),
        rest.left() < covers.left(),
        unread(rest) == cover_bytes(ms, i + 1),
        sf_cover(covers, old_end(ms, i), new_end(ms, i)) == Ok::<(SfCover, StreamView), HDiffError>(
            (
                SfCover {
                    old_pos: ms[i].old_pos,
                    new_pos: ms[i].new_pos,
                    length: ms[i].length,
                    old_end: old_end(ms, i + 1),
                    new_end: new_end(ms, i + 1),
                },
                rest,
            ),
        ),
{
    let m = ms[i];
    if i > 0 {
        assert(is_match(old, new, ms[i - 1]));
        assert(ms[i - 1].new_pos + ms[i - 1].length <= ms[i].new_pos);
    }
    let gap = m.new_pos - new_end(ms, i);
    let r3 = cover_bytes(ms, i + 1);
    let r2 = plain(m.length) + r3;
    let r1 = plain(gap) + r2;
    lemma_read_signed(covers, old_end(ms, i), m.old_pos, r1);
    let c1 = covers.at(covers.pos + signed(old_end(ms, i), m.old_pos).len());
    lemma_read_plain(c1, gap, r2);
    let c2 = c1.at(c1.pos + plain(gap).len());
    lemma_read_plain(c2, m.length, r3);
    c2.at(c2.pos + plain(m.length).len())
}

proof fn lemma_apply_cover(
    st: SfState,
    old: Seq<u8>,
    new: Seq<u8>,
    ms: Seq<Match>,
    i: int,
    covers: StreamView,
    rle: Rle0State,
    chunk: int,
) -> (next: (SfState, StreamView, Rle0State))
    requires
        are_matches(old, new, ms),
        0 <= i < ms.len(),
        old.len() <= i64::MAX,
        old.len() <= usize::MAX,
        new.len() <= i64::MAX,
        chunk > 0,
        covers.wf(),
        unread(covers) == cover_bytes(ms, i),
        between(rle, ms, i),
        made_up_to(st, new, ms, i),
    ensures
        st.cover(old, covers, rle, chunk) == Ok::<(SfState, StreamView, Rle0State), HDiffError>(next),
        made_up_to(next.0, new, ms, i + 1),
        next.0.diff.left() <= st.diff.left(),
        next.1.wf(),
        next.1.left() < covers.left(),
        unread(next.1) == cover_bytes(ms, i + 1),
        between(next.2, ms, i + 1),
{
    let m = ms[i];
    let e = new_end(ms, i);
    assert(is_match(old, new, m));
    if i > 0 {
        assert(is_match(old, new, ms[i - 1]));
        assert(ms[i - 1].new_pos + ms[i - 1].length <= ms[i].new_pos);
    }
    let rest = lemma_read_cover(old, new, ms, i, covers);
    let gap = m.new_pos - e;
    let lit = new.subrange(e, m.new_pos);
    let more = literal_bytes(new, ms, i + 1);
    assert(unread(st.diff) == lit + more);
    let filled = if gap > 0 {
        st.literal(gap)
    } else {
        Ok(st)
    };
    assert(st.diff.left() >= gap);
    let d = st.diff.at(st.diff.pos + gap);
    assert(unread(d) =~= more) by {
        assert(unread(d) =~= unread(st.diff).skip(gap));
        assert((lit + more).skip(gap) =~= more);
    }
    assert(st.diff.next_bytes(gap) =~= lit) by {
        assert(st.diff.next_bytes(gap) =~= unread(st.diff).take(gap));
        assert((lit + more).take(gap) =~= lit);
    }
    let s = filled->Ok_0;
    assert(s.out =~= new.take(m.new_pos));
    assert(s.diff == d);
    let base = old.subrange(m.old_pos, m.old_pos + m.length);
    law_piece_size_is_immaterial(old, m.old_pos, m.length, chunk, rle);
    lemma_unchanged(rle, ms, i, base);
    let (bytes, rle2) = rle0_run(rle, base)->Ok_0;
    let t = SfState {
        old_end: old_end(ms, i + 1),
        new_end: new_end(ms, i + 1),
        left: s.left - 1,
        ..s
    };
    assert(t.put(base).out =~= new.take(m.new_pos + m.length));
    (t.put(base), rest, rle2)
}

proof fn lemma_apply_covers(
    st: SfState,
    old: Seq<u8>,
    new: Seq<u8>,
    ms: Seq<Match>,
    i: int,
    covers: StreamView,
    rle: Rle0State,
    chunk: int,
)
    requires
        are_matches(old, new, ms),
        0 <= i <= ms.len(),
        old.len() <= i64::MAX,
        old.len() <= usize::MAX,
        new.len() <= i64::MAX,
        chunk > 0,
        covers.wf(),
        unread(covers) == cover_bytes(ms, i),
        between(rle, ms, i),
        made_up_to(st, new, ms, i),
    ensures
        st.covers(old, covers, rle, chunk) matches Ok(t) && made_up_to(t, new, ms, ms.len() as int)
            && t.diff.left() <= st.diff.left(),
    decreases ms.len() - i,
{
    if i < ms.len() {
        let (s, rest, rle2) = lemma_apply_cover(st, old, new, ms, i, covers, rle, chunk);
        lemma_apply_covers(s, old, new, ms, i + 1, rest, rle2, chunk);
    }
}

/// The stream of a patch: one step with all covers and differences, then the
/// literal bytes.
pub open spec fn stream_bytes(new: Seq<u8>, ms: Seq<Match>) -> Seq<u8> {
    let covers = cover_bytes(ms, 0);
    let differences = difference_bytes(ms, 0);
    plain(covers.len() as int) + (plain(differences.len() as int) + (covers + (differences
        + literal_bytes(new, ms, 0))))
}

/// The size of the one step of a patch.
pub open spec fn step_size(ms: Seq<Match>) -> int {
    (cover_bytes(ms, 0).len() + difference_bytes(ms, 0).len()) as int
}

/// The first line of a patch in one stream without compression.
pub open spec fn first_line() -> Seq<char> {
    "HDIFF20&nocomp"@
}

/// A patch that makes `new` out of `old` by some matches, in one stream without
/// compression: its first line, the sizes, and the stream.
pub open spec fn patch_bytes(old: Seq<u8>, new: Seq<u8>, ms: Seq<Match>) -> Seq<u8> {
    let stream = stream_bytes(new, ms);
    vstd::utf8::encode_utf8(first_line()) + (seq![0u8] + (plain(new.len() as int) + (plain(
        old.len() as int,
    ) + (plain(ms.len() as int) + (plain(step_size(ms)) + (plain(stream.len() as int) + (plain(0)
        + stream)))))))
}

proof fn lemma_three_parts(d: StreamView, p: Seq<u8>, q: Seq<u8>, r: Seq<u8>)
    requires
        d.wf(),
        unread(d) == p + (q + r),
    ensures
        d.left() == p.len() + q.len() + r.len(),
        d.data.subrange(d.pos, d.pos + p.len()) == p,
        d.data.subrange(d.pos + p.len(), d.pos + p.len() + q.len()) == q,
        unread(d.at(d.pos + p.len() + q.len())) == r,
{
    let u = p + (q + r);
    let a = p.len() as int;
    let b = q.len() as int;
    assert(u.len() == a + b + r.len());
    assert(unread(d).len() == d.data.len() - d.pos);
    assert(d.data.len() == d.pos + a + b + r.len());
    assert(d.data.subrange(d.pos, d.pos + a) =~= unread(d).take(a));
    assert(u.take(a) =~= p);
    assert(d.data.subrange(d.pos + a, d.pos + a + b) =~= unread(d).subrange(a, a + b));
    assert(u.subrange(a, a + b) =~= q);
    assert(unread(d.at(d.pos + a + b)) =~= unread(d).skip(a + b));
    assert(u.skip(a + b) =~= r);
}

/// The literal bytes behind the last match complete the new data.
proof fn lemma_tail(t: SfState, old: Seq<u8>, new: Seq<u8>, ms: Seq<Match>, chunk: int)
    requires
        are_matches(old, new, ms),
        0 < ms.len(),
        made_up_to(t, new, ms, ms.len() as int),
    ensures
        t.steps(old, new.len() as int, chunk) matches Ok(u) && u.out == new,
{
    let n = ms.len() as int;
    let e = new_end(ms, n);
    assert(is_match(old, new, ms[n - 1]));
    assert(unread(t.diff) == new.skip(e));
    assert(t.diff.left() == new.len() - e);
    if e < new.len() {
        let k = new.len() - e;
        assert(t.diff.next_bytes(k) =~= unread(t.diff));
        assert(new.take(e) + new.skip(e) =~= new);
        assert(t.literal(k) is Ok);
    } else {
        assert(new.take(e) =~= new);
    }
}

/// Taking the one step of a patch makes the new data up to the end of the last
/// match.
proof fn lemma_step(diff: StreamView, old: Seq<u8>, new: Seq<u8>, ms: Seq<Match>) -> (t: SfState)
    requires
        are_matches(old, new, ms),
        0 < ms.len(),
        old.len() <= i64::MAX,
        old.len() <= usize::MAX,
        new.len() <= i64::MAX,
        step_size(ms) <= MAX_STEP_SIZE,
        diff.wf(),
        unread(diff) == stream_bytes(new, ms),
    ensures
        first_sf_state(diff, ms.len() as int).step(old, step_size(ms)) == Ok::<SfState, HDiffError>(
            t,
        ),
        made_up_to(t, new, ms, ms.len() as int),
        t.diff.left() < diff.left(),
{
    let covers = cover_bytes(ms, 0);
    let differences = difference_bytes(ms, 0);
    let lit = literal_bytes(new, ms, 0);
    let a = covers.len() as int;
    let b = differences.len() as int;
    let st = first_sf_state(diff, ms.len() as int);
    lemma_read_plain(diff, a, plain(b) + (covers + (differences + lit)));
    let d1 = diff.at(diff.pos + plain(a).len());
    lemma_read_plain(d1, b, covers + (differences + lit));
    let d2 = d1.at(d1.pos + plain(b).len());
    lemma_three_parts(d2, covers, differences, lit);
    let d3 = d2.at(d2.pos + a + b);
    let cs = StreamView { data: covers, pos: 0, damaged: false };
    assert(unread(cs) =~= covers);
    let rle = first_rle0(differences);
    assert(rle.buf.skip(0) =~= differences);
    let s = SfState { diff: d3, ..st };
    assert(new.take(0) =~= Seq::<u8>::empty());
    let rest = lemma_read_cover(old, new, ms, 0, cs);
    assert(a > 0);
    lemma_apply_covers(s, old, new, ms, 0, cs, rle, step_size(ms));
    s.covers(old, cs, rle, step_size(ms))->Ok_0
}

/// Taking the one step of a patch, and the literal bytes behind it, makes the new
/// data.
proof fn lemma_steps_make_the_new_data(diff: StreamView, old: Seq<u8>, new: Seq<u8>, ms: Seq<Match>)
    requires
        are_matches(old, new, ms),
        0 < ms.len(),
        old.len() <= i64::MAX,
        old.len() <= usize::MAX,
        new.len() <= i64::MAX,
        step_size(ms) <= MAX_STEP_SIZE,
        diff.wf(),
        unread(diff) == stream_bytes(new, ms),
    ensures
        first_sf_state(diff, ms.len() as int).steps(old, new.len() as int, step_size(ms)) matches Ok(
            t,
        ) && t.out == new,
{
    let t = lemma_step(diff, old, new, ms);
    lemma_tail(t, old, new, ms, step_size(ms));
}

proof fn lemma_first_line()
    ensures
        header_line(first_line()) == Ok::<(i64, CompressionMode), HDiffError>(
            (20i64, CompressionMode::Nocomp),
        ),
        ({
            let w = vstd::utf8::encode_utf8(first_line());
            &&& w.len() == 14
            &&& forall|i: int| 0 <= i < 14 ==> #[trigger] w[i] != 0
        }),
{
    let line = first_line();
    reveal_strlit("HDIFF20&nocomp");
    reveal_strlit("HDIFF");
    reveal_strlit("nocomp");
    reveal_strlit("");
    assert(vstd::utf8::is_ascii_chars(line));
    vstd::utf8::is_ascii_chars_encode_utf8(line);
    let left = line.take(7);
    let right = line.skip(8);
    assert(line =~= left.push('&') + right);
    lemma_split_two(left, right, '&');
    let marker = "HDIFF"@;
    assert(line.subrange(0, 5) =~= marker);
    assert(find_from(line, marker, 0) == Some(0int));
    assert(left.subrange(0, 5) =~= marker);
    assert(find_from(left, marker, 0) == Some(0int));
    let number = left.skip(5);
    assert(number =~= seq!['2', '0']);
    assert(from_first_digit(number) == number);
    assert(number.drop_last() =~= seq!['2']);
    assert(number.drop_last().drop_last() =~= Seq::<char>::empty());
    assert(digits_value(seq!['2']) == 2) by {
        assert(seq!['2'].drop_last() =~= Seq::<char>::empty());
        assert(digits_value(Seq::<char>::empty()) == 0);
    }
    assert(digits_value(number) == 20);
    assert(parse_digits(number) == Some(20int));
    assert(lower_chars(right) =~= "nocomp"@);
    assert(mode_of_name(right) == Some(CompressionMode::Nocomp));
}

proof fn lemma_split_none(a: Seq<char>, c: char)
    requires
        !a.contains(c),
    ensures
        split_on(a, c) == seq![a],
    decreases a.len(),
{
    if a.len() > 0 {
        let b = a.drop_last();
        assert forall|i: int| 0 <= i < b.len() implies b[i] != c by {
            assert(a.contains(a[i]));
        }
        lemma_split_none(b, c);
        assert(a.contains(a[a.len() - 1]));
        assert(b.push(a.last()) =~= a);
        assert(split_on(a, c) =~= seq![a]);
    } else {
        assert(a =~= Seq::<char>::empty());
        assert(split_on(a, c) =~= seq![a]);
    }
}

pub proof fn lemma_split_two(a: Seq<char>, b: Seq<char>, c: char)
    requires
        !a.contains(c),
        !b.contains(c),
    ensures
        split_on(a.push(c) + b, c) == seq![a, b],
    decreases b.len(),
{
    let s = a.push(c) + b;
    if b.len() == 0 {
        lemma_split_none(a, c);
        assert(s.drop_last() =~= a);
        assert(b =~= Seq::<char>::empty());
        assert(split_on(s, c) =~= seq![a, b]);
    } else {
        let d = b.drop_last();
        assert forall|i: int| 0 <= i < d.len() implies d[i] != c by {
            assert(b.contains(b[i]));
        }
        lemma_split_two(a, d, c);
        assert(s.drop_last() =~= a.push(c) + d);
        assert(b.contains(b[b.len() - 1]));
        assert(d.push(b.last()) =~= b);
        assert(split_on(s, c) =~= seq![a, b]);
    }
}

pub proof fn lemma_next_long(s: StreamView, n: nat, v: Seq<i64>, t: StreamView, x: int, rest: Seq<u8>)
    requires
        longs(s, n) == Ok::<(Seq<i64>, StreamView), HDiffError>((v, t)),
        t.wf(),
        0 <= x <= i64::MAX,
        unread(t) == plain(x) + rest,
    ensures
        ({
            let u = t.at(t.pos + plain(x).len());
            &&& longs(s, n + 1) == Ok::<(Seq<i64>, StreamView), HDiffError>((v.push(x as i64), u))
            &&& u.wf()
            &&& unread(u) == rest
        }),
{
    lemma_read_plain(t, x, rest);
}

pub proof fn lemma_covers_take_bytes(ms: Seq<Match>, i: int)
    requires
        0 <= i <= ms.len(),
    ensures
        cover_bytes(ms, i).len() >= ms.len() - i,
    decreases ms.len() - i,
{
    if i < ms.len() {
        lemma_covers_take_bytes(ms, i + 1);
    }
}

/// The header of a patch says what it was written with.
spec fn header_of(old: Seq<u8>, new: Seq<u8>, ms: Seq<Match>, diff_pos: int) -> HeaderInfo {
    HeaderInfo {
        comp_mode: CompressionMode::Nocomp,
        is_single_compressed_diff: true,
        new_data_size: new.len() as i64,
        old_data_size: old.len() as i64,
        chunk_info: DiffChunkInfo { cover_count: ms.len() as i64, ..empty_chunk_info() },
        step_mem_size: step_size(ms) as i64,
        single_chunk_info: DiffSingleChunkInfo {
            uncompressed_size: stream_bytes(new, ms).len() as i64,
            compressed_size: 0,
            diff_data_pos: diff_pos as i64,
        },
        compressed_count: 0,
    }
}

/// The first line of a patch is read up to the zero byte behind it.
proof fn lemma_read_line(file: Seq<u8>, rest: Seq<u8>)
    requires
        file == vstd::utf8::encode_utf8(first_line()) + (seq![0u8] + rest),
    ensures
        ({
            let s = StreamView { data: file, pos: 0, damaged: false };
            &&& s.string_to_null(512) == (Ok::<Seq<char>, HDiffError>(first_line()), s.at(15))
            &&& s.at(15).wf()
            &&& unread(s.at(15)) == rest
        }),
{
    let w = vstd::utf8::encode_utf8(first_line());
    lemma_first_line();
    lemma_null_index(file, 0);
    assert(file[14] == 0);
    assert forall|i: int| 0 <= i < 14 implies #[trigger] file[i] != 0 by {
        assert(file[i] == w[i]);
    }
    assert(null_index(file, 0) == 14);
    assert(file.subrange(0, 14) =~= w);
    vstd::utf8::encode_utf8_valid_utf8(first_line());
    vstd::utf8::encode_utf8_decode_utf8(first_line());
    assert(file.subrange(15, file.len() as int) =~= rest);
}

proof fn lemma_read_header(old: Seq<u8>, new: Seq<u8>, ms: Seq<Match>) -> (diff_pos: int)
    requires
        old.len() <= i64::MAX,
        new.len() <= i64::MAX,
        ms.len() <= i64::MAX,
        step_size(ms) <= i64::MAX,
        patch_bytes(old, new, ms).len() <= i64::MAX,
    ensures
        patch_header(patch_bytes(old, new, ms)) == Ok::<HeaderInfo, HDiffError>(
            header_of(old, new, ms, diff_pos),
        ),
        0 <= diff_pos <= patch_bytes(old, new, ms).len(),
        patch_bytes(old, new, ms).skip(diff_pos) == stream_bytes(new, ms),
{
    let stream = stream_bytes(new, ms);
    let r5 = plain(0) + stream;
    let r4 = plain(stream.len() as int) + r5;
    let r3 = plain(step_size(ms)) + r4;
    let r2 = plain(ms.len() as int) + r3;
    let r1 = plain(old.len() as int) + r2;
    let r0 = plain(new.len() as int) + r1;
    let file = patch_bytes(old, new, ms);
    lemma_first_line();
    lemma_read_line(file, r0);
    let s = StreamView { data: file, pos: 0, damaged: false }.at(15);
    assert(longs(s, 0) == Ok::<(Seq<i64>, StreamView), HDiffError>((Seq::empty(), s)));
    lemma_next_long(s, 0, Seq::empty(), s, new.len() as int, r1);
    let t1 = s.at(s.pos + plain(new.len() as int).len());
    let v1 = Seq::<i64>::empty().push(new.len() as i64);
    lemma_next_long(s, 1, v1, t1, old.len() as int, r2);
    let t2 = t1.at(t1.pos + plain(old.len() as int).len());
    let v2 = v1.push(old.len() as i64);
    lemma_next_long(s, 2, v2, t2, ms.len() as int, r3);
    let t3 = t2.at(t2.pos + plain(ms.len() as int).len());
    let v3 = v2.push(ms.len() as i64);
    lemma_next_long(s, 3, v3, t3, step_size(ms), r4);
    let t4 = t3.at(t3.pos + plain(step_size(ms)).len());
    let v4 = v3.push(step_size(ms) as i64);
    lemma_next_long(s, 4, v4, t4, stream.len() as int, r5);
    let t5 = t4.at(t4.pos + plain(stream.len() as int).len());
    let v5 = v4.push(stream.len() as i64);
    lemma_next_long(s, 5, v5, t5, 0, stream);
    let t6 = t5.at(t5.pos + plain(0).len());
    assert(file.skip(t6.pos) =~= unread(t6));
    t6.pos
}

/// A patch that was written for some matches between old and new data makes the
/// new data of the old, whatever the two hold: it is applied without an error,
/// and what comes out is the new data.
pub proof fn law_patches_make_the_new_data(
    source_path: Seq<char>,
    dest_path: Seq<char>,
    old: Seq<u8>,
    new: Seq<u8>,
    ms: Seq<Match>,
)
    requires
        source_path != dest_path,
        are_matches(old, new, ms),
        0 < ms.len(),
        step_size(ms) <= MAX_STEP_SIZE,
        old.len() <= usize::MAX,
        old.len() <= i64::MAX,
        new.len() <= i64::MAX,
        patch_bytes(old, new, ms).len() <= i64::MAX,
    ensures
        patch_result(
            source_path,
            dest_path,
            false,
            ContentView::Bytes(old),
            ContentView::Bytes(patch_bytes(old, new, ms)),
        ) matches Ok((data, _)) && data == new,
{
    let file = patch_bytes(old, new, ms);
    lemma_covers_take_bytes(ms, 0);
    let pos = lemma_read_header(old, new, ms);
    let h = header_of(old, new, ms, pos);
    lemma_stream_of_file(file, stream_bytes(new, ms), pos);
    lemma_apply_header(old, new, ms, file, pos);
    assert(patched(old, file, h) matches Ok((data, _)) && data == new);
}

/// The rest of a file, as a section without compression.
proof fn lemma_stream_of_file(file: Seq<u8>, stream: Seq<u8>, pos: int)
    requires
        0 <= pos <= file.len() <= i64::MAX,
        file.skip(pos) == stream,
    ensures
        clip_stream(
            file,
            CompressionMode::Nocomp,
            unsigned_bits(pos as i64),
            unsigned_bits(stream.len() as i64),
            unsigned_bits(0),
            false,
        ) == Ok::<StreamView, HDiffError>(StreamView { data: stream, pos: 0, damaged: false }),
{
    assert(file.len() - pos == stream.len());
    assert(file_range(file, pos, stream.len() as int) =~= stream);
}

proof fn lemma_apply_header(
    old: Seq<u8>,
    new: Seq<u8>,
    ms: Seq<Match>,
    file: Seq<u8>,
    pos: int,
)
    requires
        are_matches(old, new, ms),
        0 < ms.len() <= step_size(ms),
        step_size(ms) <= MAX_STEP_SIZE,
        old.len() <= usize::MAX,
        old.len() <= i64::MAX,
        new.len() <= i64::MAX,
        clip_stream(
            file,
            CompressionMode::Nocomp,
            unsigned_bits(pos as i64),
            unsigned_bits(stream_bytes(new, ms).len() as i64),
            unsigned_bits(0),
            false,
        ) == Ok::<StreamView, HDiffError>(
            StreamView { data: stream_bytes(new, ms), pos: 0, damaged: false },
        ),
    ensures
        single_stream_output(old, file, header_of(old, new, ms, pos)) matches Ok(t) && t.out == new,
{
    let diff = StreamView { data: stream_bytes(new, ms), pos: 0, damaged: false };
    assert(unread(diff) =~= stream_bytes(new, ms));
    lemma_steps_make_the_new_data(diff, old, new, ms);
    let h = header_of(old, new, ms, pos);
    assert(step_limit(h.step_mem_size) == step_size(ms));
    assert(h.chunk_info.cover_count as int == ms.len());
}

/// The size of the blocks in which old and new data are compared.
pub const BLOCK_SIZE: usize = 256;

/// The `i`-th block of the old data stands at the same place in the new.
pub open spec fn same_block(old: Seq<u8>, new: Seq<u8>, i: int) -> bool {
    old.subrange(i * BLOCK_SIZE, (i + 1) * BLOCK_SIZE) == new.subrange(
        i * BLOCK_SIZE,
        (i + 1) * BLOCK_SIZE,
    )
}

/// The match that the blocks from `a` to `b` make.
pub open spec fn block_run(a: int, b: int) -> Match {
    Match { old_pos: a * BLOCK_SIZE, new_pos: a * BLOCK_SIZE, length: (b - a) * BLOCK_SIZE }
}

/// The runs of equal blocks that end within the first `n`, and the first block of
/// the run that goes on.
pub open spec fn runs_below(old: Seq<u8>, new: Seq<u8>, n: int) -> (Seq<Match>, Option<int>)
    decreases n,
{
    if n <= 0 {
        (Seq::empty(), None)
    } else {
        let (ms, run) = runs_below(old, new, n - 1);
        match run {
            Some(a) => if same_block(old, new, n - 1) {
                (ms, run)
            } else {
                (ms.push(block_run(a, n - 1)), None)
            },
            None => if same_block(old, new, n - 1) {
                (ms, Some(n - 1))
            } else {
                (ms, None)
            },
        }
    }
}

/// The runs of equal blocks of old and new data.
pub open spec fn block_matches(old: Seq<u8>, new: Seq<u8>) -> Seq<Match> {
    let n = old.len() as int / BLOCK_SIZE as int;
    let (ms, run) = runs_below(old, new, n);
    match run {
        Some(a) => ms.push(block_run(a, n)),
        None => ms,
    }
}

/// The old and new data agree from block `a` to block `b`.
spec fn agree(old: Seq<u8>, new: Seq<u8>, a: int, b: int) -> bool {
    forall|j: int| a * BLOCK_SIZE <= j < b * BLOCK_SIZE ==> #[trigger] old[j] == new[j]
}

/// What was found in the first `n` blocks: matches that end before the run that
/// goes on, if one does, and else within the blocks.
spec fn runs_ok(old: Seq<u8>, new: Seq<u8>, n: int) -> bool {
    let (ms, run) = runs_below(old, new, n);
    &&& are_matches(old, new, ms)
    &&& match run {
        Some(a) => {
            &&& 0 <= a < n
            &&& agree(old, new, a, n)
            &&& forall|i: int|
                0 <= i < ms.len() ==> (#[trigger] ms[i]).new_pos + ms[i].length <= a * BLOCK_SIZE
        },
        None => forall|i: int|
            0 <= i < ms.len() ==> (#[trigger] ms[i]).new_pos + ms[i].length <= n * BLOCK_SIZE,
    }
}

proof fn lemma_push_run(old: Seq<u8>, new: Seq<u8>, ms: Seq<Match>, a: int, b: int)
    requires
        are_matches(old, new, ms),
        0 <= a < b,
        b * BLOCK_SIZE <= old.len(),
        old.len() <= new.len(),
        agree(old, new, a, b),
        forall|i: int|
            0 <= i < ms.len() ==> (#[trigger] ms[i]).new_pos + ms[i].length <= a * BLOCK_SIZE,
    ensures
        are_matches(old, new, ms.push(block_run(a, b))),
{
    let m = block_run(a, b);
    let out = ms.push(m);
    assert(old.subrange(m.old_pos, m.old_pos + m.length) =~= new.subrange(
        m.new_pos,
        m.new_pos + m.length,
    ));
    assert forall|i: int| 0 <= i < out.len() implies is_match(old, new, #[trigger] out[i]) by {
        if i < ms.len() {
            assert(out[i] == ms[i]);
        }
    }
    assert forall|i: int, j: int| 0 <= i < j < out.len() implies (#[trigger] out[i]).new_pos
        + out[i].length <= (#[trigger] out[j]).new_pos by {
        assert(out[i] == ms[i]);
        if j < ms.len() {
            assert(out[j] == ms[j]);
        }
    }
}

proof fn lemma_runs(old: Seq<u8>, new: Seq<u8>, n: int)
    requires
        0 <= n,
        n * BLOCK_SIZE <= old.len(),
        old.len() <= new.len(),
    ensures
        runs_ok(old, new, n),
        forall|i: int| 0 <= i < n && #[trigger] same_block(old, new, i) ==> runs_below(
            old,
            new,
            n,
        ).0.len() > 0 || runs_below(old, new, n).1 is Some,
    decreases n,
{
    if n > 0 {
        lemma_runs(old, new, n - 1);
        let (ms, run) = runs_below(old, new, n - 1);
        if same_block(old, new, n - 1) {
            let x = old.subrange((n - 1) * BLOCK_SIZE, n * BLOCK_SIZE);
            let y = new.subrange((n - 1) * BLOCK_SIZE, n * BLOCK_SIZE);
            assert forall|j: int| (n - 1) * BLOCK_SIZE <= j < n * BLOCK_SIZE implies
                #[trigger] old[j] == new[j] by {
                assert(x[j - (n - 1) * BLOCK_SIZE] == y[j - (n - 1) * BLOCK_SIZE]);
            }
        } else if run is Some {
            lemma_push_run(old, new, ms, run->0, n - 1);
        }
    }
}

/// A patch that was written by comparing the blocks of old and new data makes the
/// new data of the old, where at least one block stands in both.
pub proof fn law_block_patches_make_the_new_data(
    source_path: Seq<char>,
    dest_path: Seq<char>,
    old: Seq<u8>,
    new: Seq<u8>,
    block: int,
)
    requires
        source_path != dest_path,
        old.len() <= new.len(),
        0 <= block,
        (block + 1) * BLOCK_SIZE <= old.len(),
        same_block(old, new, block),
        step_size(block_matches(old, new)) <= MAX_STEP_SIZE,
        old.len() <= usize::MAX,
        new.len() <= i64::MAX,
        patch_bytes(old, new, block_matches(old, new)).len() <= i64::MAX,
    ensures
        patch_result(
            source_path,
            dest_path,
            false,
            ContentView::Bytes(old),
            ContentView::Bytes(patch_bytes(old, new, block_matches(old, new))),
        ) matches Ok((data, _)) && data == new,
{
    let n = old.len() as int / BLOCK_SIZE as int;
    lemma_runs(old, new, n);
    let (ms, run) = runs_below(old, new, n);
    if run is Some {
        lemma_push_run(old, new, ms, run->0, n);
    }
    assert(block < n);
    law_patches_make_the_new_data(source_path, dest_path, old, new, block_matches(old, new));
}

} // verus!

//! How a sectioned patch is written, and what applying it gives.

use vstd::prelude::*;
use crate::files::ContentView;
use crate::text::digits_value;
use crate::text::find_from;
use crate::text::lower_chars;
use crate::text::parse_digits;
use super::compression::decoded_section;
use super::compression::file_range;
use super::compression_mode::mode_of_name;
use super::compression_mode::CompressionMode;
use super::cover::cover_limits;
use super::cover::cover_list;
use super::cover::cover_long;
use super::cover::cover_step;
use super::cover::first_cover_state;
use super::cover::parse_covers;
use super::cover::CoverState;
use super::cover::MAX_COVER_COUNT;
use super::cover::MAX_HEADERS_BY_MEMORY;
use super::diff::chunk_sizes;
use super::diff::from_first_digit;
use super::diff::header_line;
use super::diff::longs;
use super::diff::patch_header;
use super::diff::patch_result;
use super::error::HDiffError;
use super::error::LayoutPoint;
use super::header::empty_clip;
use super::header::empty_header_info;
use super::header::CoverHeader;
use super::header::DiffChunkInfo;
use super::header::HeaderInfo;
use super::header::RleRefClip;
use super::laws::law_runs_carry_over;
use super::laws::lemma_round_trip;
use super::laws::lemma_run_wf;
use super::laws::unread;
use super::laws::varint_bytes;
use super::parser::lemma_null_index;
use super::parser::null_index;
use super::parser::tag_base;
use super::parser::varint_at;
use super::parser::StreamView;
use super::parser::Varint;
use super::parser::LONG_CAP;
use super::patch_core::add_bytes;
use super::patch_core::add_value;
use super::patch_core::clip_wf;
use super::patch_core::first_patch_state;
use super::patch_core::less_copy;
use super::patch_core::less_set;
use super::patch_core::next_run;
use super::patch_core::rle_run;
use super::patch_core::wrap_add;
use super::patch_core::PatchState;
use super::patch_single::open_section;
use super::patch_single::open_sections;
use super::patch_single::sectioned_output;
use super::writing::are_matches;
use super::writing::cover_bytes;
use super::writing::is_match;
use super::writing::lemma_covers_take_bytes;
use super::writing::lemma_from_shift;
use super::writing::lemma_next_long;
use super::writing::lemma_read_plain;
use super::writing::lemma_read_signed;
use super::writing::lemma_split_two;
use super::writing::literal_bytes;
use super::writing::new_end;
use super::writing::old_end;
use super::writing::plain;
use super::writing::signed;
use super::writing::Match;

verus! {

/// A run of bytes that are added to the base of the new data: nothing, 255 to
/// each byte, one value to each byte, or a value of its own to each.
pub ghost enum Run {
    Nothing(int),
    Less(int),
    Same(int, u8),
    Own(Seq<u8>),
}

impl Run {
    /// The number of bytes that the run covers.
    pub open spec fn length(self) -> int {
        match self {
            Run::Nothing(n) => n,
            Run::Less(n) => n,
            Run::Same(n, _) => n,
            Run::Own(values) => values.len() as int,
        }
    }

    /// What the run adds to each byte.
    pub open spec fn values(self) -> Seq<u8> {
        match self {
            Run::Nothing(n) => Seq::new(n as nat, |i: int| 0u8),
            Run::Less(n) => Seq::new(n as nat, |i: int| 255u8),
            Run::Same(n, v) => Seq::new(n as nat, |i: int| v),
            Run::Own(values) => values,
        }
    }

    /// The kind of the run, as it is written.
    pub open spec fn kind(self) -> int {
        match self {
            Run::Nothing(_) => 0,
            Run::Less(_) => 1,
            Run::Same(_, _) => 2,
            Run::Own(_) => 3,
        }
    }

    /// The run in the control section: its kind, and its length less one.
    pub open spec fn control(self) -> Seq<u8> {
        varint_bytes(self.kind(), 32, self.length() - 1)
    }

    /// The run in the section of values.
    pub open spec fn code(self) -> Seq<u8> {
        match self {
            Run::Nothing(_) => Seq::empty(),
            Run::Less(_) => Seq::empty(),
            Run::Same(_, v) => seq![v],
            Run::Own(values) => values,
        }
    }
}

/// The runs take some bytes each, in all as many as 63 bits can count.
pub open spec fn are_runs(runs: Seq<Run>) -> bool {
    forall|i: int| 0 <= i < runs.len() ==> 0 < (#[trigger] runs[i]).length() <= i64::MAX
}

/// What the runs from the `i`-th on add to each byte.
pub open spec fn added_from(runs: Seq<Run>, i: int) -> Seq<u8>
    decreases runs.len() - i,
{
    if i >= runs.len() {
        Seq::empty()
    } else {
        runs[i].values() + added_from(runs, i + 1)
    }
}

/// The control section for the runs from the `i`-th on.
pub open spec fn control_bytes(runs: Seq<Run>, i: int) -> Seq<u8>
    decreases runs.len() - i,
{
    if i >= runs.len() {
        Seq::empty()
    } else {
        runs[i].control() + control_bytes(runs, i + 1)
    }
}

/// The section of values for the runs from the `i`-th on.
pub open spec fn value_bytes(runs: Seq<Run>, i: int) -> Seq<u8>
    decreases runs.len() - i,
{
    if i >= runs.len() {
        Seq::empty()
    } else {
        runs[i].code() + value_bytes(runs, i + 1)
    }
}

/// Each byte of `base` with what is added to it, modulo 256.
pub open spec fn raised(base: Seq<u8>, added: Seq<u8>) -> Seq<u8> {
    Seq::new(base.len(), |i: int| ((base[i] + added[i]) % 256) as u8)
}

/// Reading the kind and the length of a run gives back what was written.
proof fn lemma_read_tagged(s: StreamView, tag: int, v: int, rest: Seq<u8>)
    requires
        s.wf(),
        0 <= tag < 4,
        0 <= v <= i64::MAX,
        unread(s) == varint_bytes(tag, 32, v) + rest,
    ensures
        s.left() > 0,
        ({
            let first = s.data[s.pos];
            let w = varint_bytes(tag, 32, v);
            let t = s.at(s.pos + w.len());
            &&& first / 64 == tag
            &&& s.at(s.pos + 1).long_7bit(2, first) == (Ok::<i64, HDiffError>(v as i64), t)
            &&& t.wf()
            &&& unread(t) == rest
        }),
{
    let w = varint_bytes(tag, 32, v);
    let u = w + rest;
    let wide = 2 * tag_base(2);
    assert((tag + 1) * wide <= 256) by (nonlinear_arith)
        requires
            0 <= tag < 4,
            wide == 64,
    ;
    lemma_round_trip(2, tag, v, rest, LONG_CAP as int);
    let pre = s.data.take(s.pos);
    assert(s.data =~= pre + u);
    assert(s.data[s.pos] == u[0]);
    lemma_from_shift(pre, u, 1, 2, u[0], LONG_CAP as int);
    assert(unread(s.at(s.pos + w.len())) =~= rest);
    assert((u[0] as int) / 64 == tag);
    assert(varint_at(s.data, s.pos + 1, 2, u[0], LONG_CAP as int) == (
        Varint::Value(v as u64),
        s.pos + w.len(),
    ));
}

/// Every run that was written adds what it says: what comes out of a stretch that
/// the runs cover is the stretch with their values added.
proof fn lemma_runs(
    clip: RleRefClip,
    ctrl: StreamView,
    code: StreamView,
    runs: Seq<Run>,
    i: int,
    base: Seq<u8>,
)
    requires
        clip.mem_set_length == 0,
        clip.mem_copy_length == 0,
        ctrl.wf(),
        code.wf(),
        are_runs(runs),
        0 <= i <= runs.len(),
        unread(ctrl) == control_bytes(runs, i),
        unread(code) == value_bytes(runs, i),
        base.len() == added_from(runs, i).len(),
    ensures
        rle_run(clip, ctrl, code, base) matches Ok(o) && o.bytes == raised(
            base,
            added_from(runs, i),
        ),
    decreases runs.len() - i,
{
    if i >= runs.len() {
        assert(raised(base, added_from(runs, i)) =~= Seq::<u8>::empty());
    } else {
        let r = runs[i];
        let n = r.length();
        let values = r.values();
        let more = added_from(runs, i + 1);
        let all = added_from(runs, i);
        assert(all == values + more);
        assert(values.len() == n);
        lemma_read_tagged(ctrl, r.kind(), n - 1, control_bytes(runs, i + 1));
        let ctrl2 = ctrl.at(ctrl.pos + r.control().len());
        let head = base.take(n);
        let tail = base.skip(n);
        match r {
            Run::Own(v) => {
                let run = RleRefClip { mem_copy_length: n as i64, ..empty_clip() };
                assert(next_run(ctrl, code) == Ok::<
                    (RleRefClip, StreamView, StreamView),
                    HDiffError,
                >((run, ctrl2, code)));
                let rest = value_bytes(runs, i + 1);
                assert(unread(code) == v + rest);
                assert(code.left() == v.len() + rest.len());
                let code2 = code.at(code.pos + n);
                assert(code.next_bytes(n) =~= v) by {
                    assert(code.next_bytes(n) =~= unread(code).take(n));
                    assert((v + rest).take(n) =~= v);
                }
                assert(unread(code2) =~= rest) by {
                    assert(unread(code2) =~= unread(code).skip(n));
                    assert((v + rest).skip(n) =~= rest);
                }
                let left = less_copy(run, n);
                lemma_runs(left, ctrl2, code2, runs, i + 1, tail);
                let o = rle_run(left, ctrl2, code2, tail)->Ok_0;
                let bytes = add_bytes(v, head) + o.bytes;
                assert(rle_run(run, ctrl2, code, base) matches Ok(p) && p.bytes == bytes);
                assert(rle_run(clip, ctrl, code, base) == rle_run(run, ctrl2, code, base));
                assert(bytes =~= raised(base, all)) by {
                    assert forall|k: int| 0 <= k < base.len() implies bytes[k] == raised(
                        base,
                        all,
                    )[k] by {
                        if k < n {
                            assert(bytes[k] == wrap_add(v[k], base[k]));
                            assert(all[k] == v[k]);
                        } else {
                            assert(bytes[k] == o.bytes[k - n]);
                            assert(tail[k - n] == base[k]);
                            assert(all[k] == more[k - n]);
                        }
                    }
                }
            },
            _ => {
                let v: u8 = values[0];
                let run = RleRefClip {
                    mem_copy_length: 0,
                    mem_set_length: n as i64,
                    mem_set_value: v,
                };
                let rest = value_bytes(runs, i + 1);
                assert(unread(code) == r.code() + rest);
                assert(code.left() == r.code().len() + rest.len());
                let code2 = code.at(code.pos + r.code().len());
                assert(unread(code2) =~= rest) by {
                    assert(unread(code2) =~= unread(code).skip(r.code().len() as int));
                    assert((r.code() + rest).skip(r.code().len() as int) =~= rest);
                }
                if r is Same {
                    assert(code.data[code.pos] == unread(code)[0]);
                    assert((r.code() + rest)[0] == v);
                }
                assert(next_run(ctrl, code) == Ok::<
                    (RleRefClip, StreamView, StreamView),
                    HDiffError,
                >((run, ctrl2, code2)));
                let left = less_set(run, n);
                lemma_runs(left, ctrl2, code2, runs, i + 1, tail);
                let o = rle_run(left, ctrl2, code2, tail)->Ok_0;
                let bytes = add_value(head, v) + o.bytes;
                assert(rle_run(run, ctrl2, code2, base) matches Ok(p) && p.bytes == bytes);
                assert(rle_run(clip, ctrl, code, base) == rle_run(run, ctrl2, code2, base));
                assert(bytes =~= raised(base, all)) by {
                    assert forall|k: int| 0 <= k < base.len() implies bytes[k] == raised(
                        base,
                        all,
                    )[k] by {
                        if k < n {
                            assert(bytes[k] == wrap_add(base[k], v));
                            assert(all[k] == values[k]);
                            assert(values[k] == v);
                        } else {
                            assert(bytes[k] == o.bytes[k - n]);
                            assert(tail[k - n] == base[k]);
                            assert(all[k] == more[k - n]);
                        }
                    }
                }
            },
        }
    }
}

/// The cover for a match, as it is decoded.
spec fn header_at(ms: Seq<Match>, i: int) -> CoverHeader {
    CoverHeader {
        old_pos: ms[i].old_pos as i64,
        new_pos: ms[i].new_pos as i64,
        cover_length: ms[i].length as i64,
        next_cover_index: (ms.len() - i - 1) as i64,
    }
}

/// The covers for the matches from the `i`-th on.
spec fn headers_from(ms: Seq<Match>, i: int) -> Seq<CoverHeader>
    decreases ms.len() - i,
{
    if i >= ms.len() {
        Seq::empty()
    } else {
        seq![header_at(ms, i)] + headers_from(ms, i + 1)
    }
}

proof fn lemma_headers(ms: Seq<Match>, i: int)
    requires
        0 <= i <= ms.len(),
    ensures
        headers_from(ms, i).len() == ms.len() - i,
        forall|k: int| 0 <= k < ms.len() - i ==> #[trigger] headers_from(ms, i)[k] == header_at(ms, i + k),
    decreases ms.len() - i,
{
    if i < ms.len() {
        lemma_headers(ms, i + 1);
        let more = headers_from(ms, i + 1);
        assert forall|k: int| 0 <= k < ms.len() - i implies #[trigger] headers_from(ms, i)[k]
            == header_at(ms, i + k) by {
            if k > 0 {
                assert(headers_from(ms, i)[k] == more[k - 1]);
            }
        }
    }
}

/// An integer that a stream gives is the same where the bytes are in memory.
proof fn lemma_long_in_memory(s: StreamView, buffered: bool, tag_bit: u8, prev: u8)
    requires
        s.long_7bit(tag_bit, prev).0 is Ok,
        tag_bit == 0 ==> s.left() > 0,
    ensures
        cover_long(s, buffered, tag_bit, prev) == s.long_7bit(tag_bit, prev),
{
}

/// The covers that were written are read back.
proof fn lemma_covers(cs: CoverState, old: Seq<u8>, base: Seq<u8>, ms: Seq<Match>, i: int)
    requires
        are_matches(old, base, ms),
        old.len() <= i64::MAX,
        base.len() <= i64::MAX,
        0 <= i <= ms.len() <= i64::MAX,
        cs.stream.wf(),
        unread(cs.stream) == cover_bytes(ms, i),
        cs.old_back == old_end(ms, i),
        cs.new_back == new_end(ms, i),
        cs.remaining == ms.len() - i,
    ensures
        parse_covers(cs) == Ok::<Seq<CoverHeader>, HDiffError>(headers_from(ms, i)),
    decreases ms.len() - i,
{
    if i < ms.len() {
        let m = ms[i];
        assert(is_match(old, base, m));
        if i > 0 {
            assert(is_match(old, base, ms[i - 1]));
            assert(ms[i - 1].new_pos + ms[i - 1].length <= ms[i].new_pos);
        }
        let gap = m.new_pos - new_end(ms, i);
        let r3 = cover_bytes(ms, i + 1);
        let r2 = plain(m.length) + r3;
        let r1 = plain(gap) + r2;
        let s = cs.stream;
        let w = signed(old_end(ms, i), m.old_pos);
        lemma_read_signed(s, old_end(ms, i), m.old_pos, r1);
        let first = s.data[s.pos];
        lemma_long_in_memory(s.at(s.pos + 1), cs.buffered, 1, first);
        let s1 = s.at(s.pos + w.len());
        lemma_read_plain(s1, gap, r2);
        assert(unread(s1).len() > 0);
        lemma_long_in_memory(s1, cs.buffered, 0, 0);
        let s2 = s1.at(s1.pos + plain(gap).len());
        lemma_read_plain(s2, m.length, r3);
        assert(unread(s2).len() > 0);
        lemma_long_in_memory(s2, cs.buffered, 0, 0);
        let s3 = s2.at(s2.pos + plain(m.length).len());
        let t = CoverState {
            stream: s3,
            buffered: cs.buffered,
            old_back: old_end(ms, i + 1),
            new_back: new_end(ms, i + 1),
            remaining: ms.len() - i - 1,
        };
        assert(cover_step(cs) == (Ok::<CoverHeader, HDiffError>(header_at(ms, i)), t));
        lemma_covers(t, old, base, ms, i + 1);
    }
}

/// Applying the covers that were written takes the base of the new data piece by
/// piece, and adds the runs to it.
#[verifier::rlimit(40)]
proof fn lemma_apply(st: PatchState, old: Seq<u8>, base: Seq<u8>, ms: Seq<Match>, i: int)
    requires
        are_matches(old, base, ms),
        old.len() <= i64::MAX,
        base.len() <= i64::MAX,
        0 <= i <= ms.len() <= i64::MAX,
        clip_wf(st.clip),
        st.ctrl.wf(),
        st.code.wf(),
        st.diff.wf(),
        unread(st.diff) == literal_bytes(base, ms, i),
        st.new_pos_back == new_end(ms, i),
        rle_run(st.clip, st.ctrl, st.code, base.skip(new_end(ms, i))) is Ok,
    ensures
        st.apply_covers(old, headers_from(ms, 0), i, base.len() as int) matches Ok(t) && t.out
            == st.out + rle_run(
            st.clip,
            st.ctrl,
            st.code,
            base.skip(new_end(ms, i)),
        )->Ok_0.bytes,
    decreases ms.len() - i,
{
    let covers = headers_from(ms, 0);
    let size = base.len() as int;
    let e = new_end(ms, i);
    lemma_headers(ms, 0);
    if i > 0 {
        assert(is_match(old, base, ms[i - 1]));
    }
    let whole = base.skip(e);
    let r = rle_run(st.clip, st.ctrl, st.code, whole)->Ok_0;
    if i >= ms.len() {
        if e < size {
            let n = size - e;
            assert(unread(st.diff).len() == n);
            assert(st.diff.next_bytes(n) =~= whole);
        } else {
            assert(whole =~= Seq::<u8>::empty());
            assert(st.out + r.bytes =~= st.out);
        }
    } else {
        let m = ms[i];
        assert(is_match(old, base, m));
        if i > 0 {
            assert(ms[i - 1].new_pos + ms[i - 1].length <= ms[i].new_pos);
        }
        let c = header_at(ms, i);
        assert(covers[i] == c);
        let gap = m.new_pos - e;
        let lit = base.subrange(e, m.new_pos);
        let piece = old.subrange(m.old_pos, m.old_pos + m.length);
        let e2 = new_end(ms, i + 1);
        let rest = base.skip(e2);
        assert(whole =~= lit + (piece + rest)) by {
            assert(piece == base.subrange(m.new_pos, e2));
        }
        law_runs_carry_over(st.clip, st.ctrl, st.code, lit, piece + rest);
        let o1 = rle_run(st.clip, st.ctrl, st.code, lit)->Ok_0;
        lemma_run_wf(st.clip, st.ctrl, st.code, lit);
        law_runs_carry_over(o1.clip, o1.ctrl, o1.code, piece, rest);
        let o2 = rle_run(o1.clip, o1.ctrl, o1.code, piece)->Ok_0;
        lemma_run_wf(o1.clip, o1.ctrl, o1.code, piece);
        let o3 = rle_run(o2.clip, o2.ctrl, o2.code, rest)->Ok_0;
        assert(r.bytes == o1.bytes + (o2.bytes + o3.bytes));
        let more = literal_bytes(base, ms, i + 1);
        assert(unread(st.diff) == lit + more);
        assert(st.diff.left() == lit.len() + more.len());
        let d = st.diff.at(st.diff.pos + gap);
        assert(st.diff.next_bytes(gap) =~= lit) by {
            assert(st.diff.next_bytes(gap) =~= unread(st.diff).take(gap));
            assert((lit + more).take(gap) =~= lit);
        }
        assert(unread(d) =~= more) by {
            assert(unread(d) =~= unread(st.diff).skip(gap));
            assert((lit + more).skip(gap) =~= more);
        }
        let s1 = PatchState {
            out: st.out + o1.bytes,
            clip: o1.clip,
            ctrl: o1.ctrl,
            code: o1.code,
            diff: d,
            ..st
        };
        if gap == 0 {
            assert(lit =~= Seq::<u8>::empty());
            assert(st.out + o1.bytes =~= st.out);
            assert(d == st.diff);
            assert(s1 == st);
        } else {
            assert(st.add_literal(gap) == Ok::<PatchState, HDiffError>(s1));
        }
        let s2 = PatchState {
            out: s1.out + o2.bytes,
            clip: o2.clip,
            ctrl: o2.ctrl,
            code: o2.code,
            ..s1
        };
        assert(s1.add_old(old, m.old_pos, m.length) == Ok::<PatchState, HDiffError>(s2));
        let s3 = PatchState { new_pos_back: e2, ..s2 }.hand_on(c.next_cover_index == 0);
        assert(st.apply_cover(old, c, size) == Ok::<PatchState, HDiffError>(s3));
        lemma_apply(s3, old, base, ms, i + 1);
        let end = s3.apply_covers(old, covers, i + 1, size)->Ok_0;
        assert(st.apply_covers(old, covers, i, size) == Ok::<PatchState, HDiffError>(end));
        assert(end.out =~= st.out + r.bytes);
    }
}

/// A section in memory, before the first read.
spec fn stream_of(data: Seq<u8>) -> StreamView {
    StreamView { data, pos: 0, damaged: false }
}

/// The first line of a sectioned patch without compression.
pub open spec fn section_line() -> Seq<char> {
    "HDIFF13&nocomp"@
}

/// The sections of a patch, one after the other.
pub open spec fn sections_of(base: Seq<u8>, ms: Seq<Match>, runs: Seq<Run>) -> Seq<u8> {
    cover_bytes(ms, 0) + (control_bytes(runs, 0) + (value_bytes(runs, 0) + literal_bytes(base, ms, 0)))
}

/// A sectioned patch without compression that takes the base of the new data from
/// `old` by some matches, and adds some runs to it: its first line, the sizes, and
/// the four sections.
pub open spec fn section_patch(old: Seq<u8>, base: Seq<u8>, ms: Seq<Match>, runs: Seq<Run>) -> Seq<u8> {
    let sizes = plain(cover_bytes(ms, 0).len() as int) + (plain(0) + (plain(
        control_bytes(runs, 0).len() as int,
    ) + (plain(0) + (plain(value_bytes(runs, 0).len() as int) + (plain(0) + (plain(
        literal_bytes(base, ms, 0).len() as int,
    ) + (plain(0) + sections_of(base, ms, runs))))))));
    vstd::utf8::encode_utf8(section_line()) + (seq![0u8] + (plain(base.len() as int) + (plain(
        old.len() as int,
    ) + (plain(ms.len() as int) + sizes))))
}

proof fn lemma_section_line()
    ensures
        header_line(section_line()) == Ok::<(i64, CompressionMode), HDiffError>(
            (13i64, CompressionMode::Nocomp),
        ),
        ({
            let w = vstd::utf8::encode_utf8(section_line());
            &&& w.len() == 14
            &&& forall|i: int| 0 <= i < 14 ==> #[trigger] w[i] != 0
        }),
{
    let line = section_line();
    reveal_strlit("HDIFF13&nocomp");
    reveal_strlit("HDIFF");
    reveal_strlit("nocomp");
    reveal_strlit("");
    assert(vstd::utf8::is_ascii_chars(line));
    vstd::utf8::is_ascii_chars_encode_utf8(line);
    let left = line.take(7);
    let right = line.skip(8);
    assert(line =~= left.push('&') + right);
    lemma_split_two(left, right, '&');
    let marker = "HDIFF"@;
    assert(line.subrange(0, 5) =~= marker);
    assert(find_from(line, marker, 0) == Some(0int));
    assert(left.subrange(0, 5) =~= marker);
    assert(find_from(left, marker, 0) == Some(0int));
    let number = left.skip(5);
    assert(number =~= seq!['1', '3']);
    assert(from_first_digit(number) == number);
    assert(number.drop_last() =~= seq!['1']);
    assert(digits_value(seq!['1']) == 1) by {
        assert(seq!['1'].drop_last() =~= Seq::<char>::empty());
        assert(digits_value(Seq::<char>::empty()) == 0);
    }
    assert(digits_value(number) == 13);
    assert(parse_digits(number) == Some(13int));
    assert(lower_chars(right) =~= "nocomp"@);
    assert(mode_of_name(right) == Some(CompressionMode::Nocomp));
}

proof fn lemma_read_section_line(file: Seq<u8>, rest: Seq<u8>)
    requires
        file == vstd::utf8::encode_utf8(section_line()) + (seq![0u8] + rest),
    ensures
        ({
            let s = StreamView { data: file, pos: 0, damaged: false };
            &&& s.string_to_null(512) == (Ok::<Seq<char>, HDiffError>(section_line()), s.at(15))
            &&& s.at(15).wf()
            &&& unread(s.at(15)) == rest
        }),
{
    let w = vstd::utf8::encode_utf8(section_line());
    lemma_section_line();
    lemma_null_index(file, 0);
    assert(file[14] == 0);
    assert forall|i: int| 0 <= i < 14 implies #[trigger] file[i] != 0 by {
        assert(file[i] == w[i]);
    }
    assert(null_index(file, 0) == 14);
    assert(file.subrange(0, 14) =~= w);
    vstd::utf8::encode_utf8_valid_utf8(section_line());
    vstd::utf8::encode_utf8_decode_utf8(section_line());
    assert(file.subrange(15, file.len() as int) =~= rest);
}

/// The header of a sectioned patch says what it was written with.
spec fn section_header(
    old: Seq<u8>,
    base: Seq<u8>,
    ms: Seq<Match>,
    runs: Seq<Run>,
    pos: int,
) -> HeaderInfo {
    let covers = cover_bytes(ms, 0).len();
    HeaderInfo {
        comp_mode: CompressionMode::Nocomp,
        is_single_compressed_diff: false,
        new_data_size: base.len() as i64,
        old_data_size: old.len() as i64,
        chunk_info: DiffChunkInfo {
            types_end_pos: 15,
            cover_count: ms.len() as i64,
            cover_buf_size: covers as i64,
            compress_cover_buf_size: 0,
            rle_ctrl_buf_size: control_bytes(runs, 0).len() as i64,
            compress_rle_ctrl_buf_size: 0,
            rle_code_buf_size: value_bytes(runs, 0).len() as i64,
            compress_rle_code_buf_size: 0,
            new_data_diff_size: literal_bytes(base, ms, 0).len() as i64,
            compress_new_data_diff_size: 0,
            head_end_pos: pos as i64,
            cover_end_pos: (pos + covers) as i64,
        },
        compressed_count: 0,
        ..empty_header_info()
    }
}

/// Three integers that were written are read back.
proof fn lemma_three_longs(
    s: StreamView,
    n: nat,
    v: Seq<i64>,
    t: StreamView,
    x: int,
    y: int,
    z: int,
    rest: Seq<u8>,
) -> (u: StreamView)
    requires
        longs(s, n) == Ok::<(Seq<i64>, StreamView), HDiffError>((v, t)),
        t.wf(),
        0 <= x <= i64::MAX,
        0 <= y <= i64::MAX,
        0 <= z <= i64::MAX,
        unread(t) == plain(x) + (plain(y) + (plain(z) + rest)),
    ensures
        longs(s, n + 3) == Ok::<(Seq<i64>, StreamView), HDiffError>(
            (v.push(x as i64).push(y as i64).push(z as i64), u),
        ),
        u.wf(),
        unread(u) == rest,
        u.data == t.data,
{
    lemma_next_long(s, n, v, t, x, plain(y) + (plain(z) + rest));
    let t1 = t.at(t.pos + plain(x).len());
    lemma_next_long(s, n + 1, v.push(x as i64), t1, y, plain(z) + rest);
    let t2 = t1.at(t1.pos + plain(y).len());
    lemma_next_long(s, n + 2, v.push(x as i64).push(y as i64), t2, z, rest);
    t2.at(t2.pos + plain(z).len())
}

/// The sizes of the sections are read back.
proof fn lemma_read_sizes(
    t: StreamView,
    count: int,
    a: int,
    b: int,
    c: int,
    d: int,
    all: Seq<u8>,
    start: i64,
) -> (u: StreamView)
    requires
        t.wf(),
        t.data.len() <= i64::MAX,
        0 <= count <= i64::MAX,
        0 <= a && 0 <= b && 0 <= c && 0 <= d,
        all.len() == a + b + c + d <= i64::MAX,
        unread(t) == plain(count) + (plain(a) + (plain(0) + (plain(b) + (plain(0) + (plain(c) + (plain(
            0,
        ) + (plain(d) + (plain(0) + all)))))))),
    ensures
        u.wf(),
        u.data == t.data,
        unread(u) == all,
        chunk_sizes(t, start) == Ok::<(DiffChunkInfo, StreamView), HDiffError>(
            (
                DiffChunkInfo {
                    types_end_pos: start,
                    cover_count: count as i64,
                    cover_buf_size: a as i64,
                    compress_cover_buf_size: 0,
                    rle_ctrl_buf_size: b as i64,
                    compress_rle_ctrl_buf_size: 0,
                    rle_code_buf_size: c as i64,
                    compress_rle_code_buf_size: 0,
                    new_data_diff_size: d as i64,
                    compress_new_data_diff_size: 0,
                    head_end_pos: u.pos as i64,
                    cover_end_pos: (u.pos + a) as i64,
                },
                u,
            ),
        ),
{
    let none = Seq::<i64>::empty();
    let q6 = plain(0) + (plain(d) + (plain(0) + all));
    let q3 = plain(b) + (plain(0) + (plain(c) + q6));
    assert(longs(t, 0) == Ok::<(Seq<i64>, StreamView), HDiffError>((none, t)));
    let t3 = lemma_three_longs(t, 0, none, t, count, a, 0, q3);
    let v3 = none.push(count as i64).push(a as i64).push(0i64);
    let t6 = lemma_three_longs(t, 3, v3, t3, b, 0, c, q6);
    let v6 = v3.push(b as i64).push(0i64).push(c as i64);
    let u = lemma_three_longs(t, 6, v6, t6, 0, d, 0, all);
    let v9 = v6.push(0i64).push(d as i64).push(0i64);
    assert(longs(t, 9) == Ok::<(Seq<i64>, StreamView), HDiffError>((v9, u)));
    assert(u.data.len() == u.pos + all.len());
    u
}

proof fn lemma_read_section_header(old: Seq<u8>, base: Seq<u8>, ms: Seq<Match>, runs: Seq<Run>) -> (pos:
    int)
    requires
        old.len() <= i64::MAX,
        base.len() <= i64::MAX,
        ms.len() <= i64::MAX,
        section_patch(old, base, ms, runs).len() <= i64::MAX,
    ensures
        patch_header(section_patch(old, base, ms, runs)) == Ok::<HeaderInfo, HDiffError>(
            section_header(old, base, ms, runs, pos),
        ),
        0 <= pos <= section_patch(old, base, ms, runs).len(),
        section_patch(old, base, ms, runs).skip(pos) == sections_of(base, ms, runs),
{
    let file = section_patch(old, base, ms, runs);
    let all = sections_of(base, ms, runs);
    let a = cover_bytes(ms, 0).len() as int;
    let b = control_bytes(runs, 0).len() as int;
    let c = value_bytes(runs, 0).len() as int;
    let d = literal_bytes(base, ms, 0).len() as int;
    let q0 = plain(ms.len() as int) + (plain(a) + (plain(0) + (plain(b) + (plain(0) + (plain(c) + (plain(
        0,
    ) + (plain(d) + (plain(0) + all))))))));
    let p1 = plain(old.len() as int) + q0;
    let p0 = plain(base.len() as int) + p1;
    lemma_section_line();
    lemma_read_section_line(file, p0);
    let s = StreamView { data: file, pos: 0, damaged: false }.at(15);
    let none = Seq::<i64>::empty();
    assert(longs(s, 0) == Ok::<(Seq<i64>, StreamView), HDiffError>((none, s)));
    lemma_next_long(s, 0, none, s, base.len() as int, p1);
    let s1 = s.at(s.pos + plain(base.len() as int).len());
    let u1 = none.push(base.len() as i64);
    lemma_next_long(s, 1, u1, s1, old.len() as int, q0);
    let t = s1.at(s1.pos + plain(old.len() as int).len());
    let u2 = u1.push(old.len() as i64);
    assert(longs(s, 2) == Ok::<(Seq<i64>, StreamView), HDiffError>((u2, t)));
    assert(all.len() == a + b + c + d);
    assert(all.len() <= unread(t).len());
    let u = lemma_read_sizes(t, ms.len() as int, a, b, c, d, all, 15);
    assert(file.skip(u.pos) =~= unread(u));
    u.pos
}

/// A section without compression is found where the one before it ends.
proof fn lemma_open_section(file: Seq<u8>, offset: int, part: Seq<u8>, rest: Seq<u8>, point: LayoutPoint)
    requires
        0 <= offset <= file.len() <= i64::MAX,
        file.skip(offset) == part + rest,
    ensures
        open_section(file, CompressionMode::Nocomp, offset, part.len() as i64, 0, point) == Ok::<
            (StreamView, int),
            HDiffError,
        >((StreamView { data: part, pos: 0, damaged: false }, offset + part.len())),
        offset + part.len() <= file.len(),
        file.skip(offset + part.len()) == rest,
{
    let n = part.len() as int;
    assert(file.skip(offset).len() == file.len() - offset);
    assert((part + rest).len() == n + rest.len());
    assert(file_range(file, offset, n) =~= part) by {
        if offset < file.len() {
            assert(file.subrange(offset, offset + n) =~= file.skip(offset).take(n));
            assert((part + rest).take(n) =~= part);
        }
    }
    assert(file.skip(offset + n) =~= file.skip(offset).skip(n));
    assert((part + rest).skip(n) =~= rest);
}

/// The four sections are found one behind the other.
proof fn lemma_open_sections(
    file: Seq<u8>,
    old: Seq<u8>,
    base: Seq<u8>,
    ms: Seq<Match>,
    runs: Seq<Run>,
    pos: int,
)
    requires
        0 <= pos <= file.len() <= i64::MAX,
        file.skip(pos) == sections_of(base, ms, runs),
    ensures
        open_sections(file, section_header(old, base, ms, runs, pos)) == Ok::<
            (StreamView, StreamView, StreamView, StreamView),
            HDiffError,
        >(
            (
                stream_of(cover_bytes(ms, 0)),
                stream_of(control_bytes(runs, 0)),
                stream_of(value_bytes(runs, 0)),
                stream_of(literal_bytes(base, ms, 0)),
            ),
        ),
{
    let p = cover_bytes(ms, 0);
    let q = control_bytes(runs, 0);
    let r = value_bytes(runs, 0);
    let l = literal_bytes(base, ms, 0);
    lemma_open_section(file, pos, p, q + (r + l), LayoutPoint::CoverStart);
    lemma_open_section(file, pos + p.len(), q, r + l, LayoutPoint::RleCtrlStart);
    lemma_open_section(file, pos + p.len() + q.len(), r, l, LayoutPoint::RleCodeStart);
    assert(l + Seq::<u8>::empty() =~= l);
    lemma_open_section(
        file,
        pos + p.len() + q.len() + r.len(),
        l,
        Seq::empty(),
        LayoutPoint::NewDataDiffStart,
    );
}

/// The covers of the cover section are those of the matches.
proof fn lemma_cover_section(old: Seq<u8>, base: Seq<u8>, ms: Seq<Match>)
    requires
        are_matches(old, base, ms),
        ms.len() <= MAX_COVER_COUNT,
        ms.len() <= MAX_HEADERS_BY_MEMORY,
        old.len() <= i64::MAX,
        base.len() <= i64::MAX,
    ensures
        cover_list(
            stream_of(cover_bytes(ms, 0)),
            cover_bytes(ms, 0).len() as int,
            ms.len() as int,
        ) == Ok::<Seq<CoverHeader>, HDiffError>(headers_from(ms, 0)),
{
    let p = cover_bytes(ms, 0);
    let n = p.len() as int;
    let cover = stream_of(p);
    lemma_covers_take_bytes(ms, 0);
    assert(cover_limits(n, ms.len() as int) is None);
    let cs = first_cover_state(cover, n, ms.len() as int)->Ok_0;
    if ms.len() > 0 {
        assert(cover.next_bytes(n) =~= p);
        assert(unread(cs.stream) =~= p);
        lemma_covers(cs, old, base, ms, 0);
    }
}

/// Applying the four sections makes the base with the runs added to it.
proof fn lemma_apply_sections(old: Seq<u8>, base: Seq<u8>, ms: Seq<Match>, runs: Seq<Run>)
    requires
        are_matches(old, base, ms),
        are_runs(runs),
        added_from(runs, 0).len() == base.len(),
        ms.len() <= i64::MAX,
        old.len() <= i64::MAX,
        base.len() <= i64::MAX,
    ensures
        first_patch_state(
            stream_of(control_bytes(runs, 0)),
            stream_of(value_bytes(runs, 0)),
            stream_of(literal_bytes(base, ms, 0)),
        ).apply_covers(old, headers_from(ms, 0), 0, base.len() as int) matches Ok(t) && t.out
            == raised(base, added_from(runs, 0)),
{
    let ctrl = stream_of(control_bytes(runs, 0));
    let code = stream_of(value_bytes(runs, 0));
    let diff = stream_of(literal_bytes(base, ms, 0));
    let st = first_patch_state(ctrl, code, diff);
    assert(unread(ctrl) =~= control_bytes(runs, 0));
    assert(unread(code) =~= value_bytes(runs, 0));
    assert(unread(diff) =~= literal_bytes(base, ms, 0));
    assert(base.skip(0) =~= base);
    lemma_runs(empty_clip(), ctrl, code, runs, 0, base);
    lemma_apply(st, old, base, ms, 0);
    let out = rle_run(empty_clip(), ctrl, code, base)->Ok_0.bytes;
    assert(Seq::<u8>::empty() + out =~= out);
}

/// What comes of a patch once its sections are opened and its covers are read.
proof fn lemma_outcome(
    source_path: Seq<char>,
    dest_path: Seq<char>,
    old: Seq<u8>,
    file: Seq<u8>,
    h: HeaderInfo,
    cover: StreamView,
    ctrl: StreamView,
    code: StreamView,
    diff: StreamView,
    covers: Seq<CoverHeader>,
    out: Seq<u8>,
)
    requires
        source_path != dest_path,
        patch_header(file) == Ok::<HeaderInfo, HDiffError>(h),
        !h.is_single_compressed_diff,
        old.len() as i64 == h.old_data_size,
        0 <= h.new_data_size <= usize::MAX,
        out.len() == h.new_data_size,
        open_sections(file, h) == Ok::<
            (StreamView, StreamView, StreamView, StreamView),
            HDiffError,
        >((cover, ctrl, code, diff)),
        cover_list(
            cover,
            h.chunk_info.cover_buf_size as int,
            h.chunk_info.cover_count as int,
        ) == Ok::<Seq<CoverHeader>, HDiffError>(covers),
        first_patch_state(ctrl, code, diff).apply_covers(old, covers, 0, h.new_data_size as int) matches Ok(
            t,
        ) && t.out == out,
    ensures
        patch_result(
            source_path,
            dest_path,
            false,
            ContentView::Bytes(old),
            ContentView::Bytes(file),
        ) matches Ok((data, _)) && data == out,
{
    assert(sectioned_output(old, file, h) matches Ok(t) && t.out == out);
}

/// A sectioned patch that was written for some matches between the old data and a
/// base, and for some runs that cover the base, makes of the old data the base with
/// the runs added to it: it is applied without an error, whatever the data and the
/// runs are. So any new data can be made, by a base of the same length and a run of
/// the differences.
pub proof fn law_sectioned_patches_make_the_new_data(
    source_path: Seq<char>,
    dest_path: Seq<char>,
    old: Seq<u8>,
    base: Seq<u8>,
    ms: Seq<Match>,
    runs: Seq<Run>,
)
    requires
        source_path != dest_path,
        are_matches(old, base, ms),
        are_runs(runs),
        added_from(runs, 0).len() == base.len(),
        ms.len() <= MAX_COVER_COUNT,
        ms.len() <= MAX_HEADERS_BY_MEMORY,
        old.len() <= i64::MAX,
        base.len() <= i64::MAX,
        base.len() <= usize::MAX,
        section_patch(old, base, ms, runs).len() <= i64::MAX,
    ensures
        patch_result(
            source_path,
            dest_path,
            false,
            ContentView::Bytes(old),
            ContentView::Bytes(section_patch(old, base, ms, runs)),
        ) matches Ok((data, _)) && data == raised(base, added_from(runs, 0)),
{
    let file = section_patch(old, base, ms, runs);
    let pos = lemma_read_section_header(old, base, ms, runs);
    let h = section_header(old, base, ms, runs, pos);
    lemma_open_sections(file, old, base, ms, runs, pos);
    lemma_cover_section(old, base, ms);
    lemma_apply_sections(old, base, ms, runs);
    lemma_outcome(
        source_path,
        dest_path,
        old,
        file,
        h,
        stream_of(cover_bytes(ms, 0)),
        stream_of(control_bytes(runs, 0)),
        stream_of(value_bytes(runs, 0)),
        stream_of(literal_bytes(base, ms, 0)),
        headers_from(ms, 0),
        raised(base, added_from(runs, 0)),
    );
}

/// A section ends behind as many bytes as its header states: the packed size where
/// there is one, and else its size. A packed section of zlib data starts with one
/// byte that is not part of the data; in the other modes all of it is data.
pub proof fn law_sections_end_where_they_are_said_to(
    file: Seq<u8>,
    mode: CompressionMode,
    offset: int,
    size: i64,
    comp_size: i64,
    point: LayoutPoint,
)
    requires
        0 <= offset,
        0 <= size,
        0 <= comp_size,
        mode == CompressionMode::Zlib ==> comp_size != 1,
    ensures
        open_section(file, mode, offset, size, comp_size, point) matches Ok((s, end)) ==> {
            let skipped: int = if mode == CompressionMode::Zlib {
                1
            } else {
                0
            };
            &&& end == offset + if comp_size > 0 {
                comp_size
            } else {
                size
            }
            &&& comp_size > 0 && mode != CompressionMode::Nocomp && end <= file.len() && !s.damaged
                ==> decoded_section(mode, file.subrange(offset + skipped, end)) == Some(s.data)
            &&& comp_size == 0 && end <= file.len() ==> s.data == file.subrange(offset, end)
        },
{
    if comp_size == 0 && size == 0 && offset == file.len() {
        assert(file.subrange(offset, offset) =~= Seq::<u8>::empty());
    }
}

} // verus!

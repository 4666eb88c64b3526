//! Patches in one stream of steps, each with its covers and their differences.

use vstd::prelude::*;
use super::compression::clip_stream;
use super::compression::get_clip_stream;
use super::error::HDiffError;
use super::header::HeaderInfo;
use super::parser::decode_varint;
use super::parser::lemma_varint_at_bounds;
use super::parser::varint_at;
use super::parser::ByteStream;
use super::parser::StreamView;
use super::parser::Varint;
use super::patch_core::add_bytes;
use super::patch_core::min;
use super::patch_core::PatchOutput;
use super::patch_single::to_unsigned_bits;
use super::patch_single::unsigned_bits;

verus! {

/// The largest step that is taken.
pub const MAX_STEP_SIZE: usize = 0x100_0000;

/// The largest value that may still take a group in a difference code.
pub const RLE_CAP: u64 = 0x01ff_ffff_ffff_fffe;

/// The length at `pos` in a difference code, and the position behind it.
pub open spec fn rle_length(buf: Seq<u8>, pos: int) -> (Option<usize>, int) {
    let (v, end) = varint_at(buf, pos, 0, 0, RLE_CAP as int);
    (
        match v {
            Varint::Value(x) => if x <= usize::MAX {
                Some(x as usize)
            } else {
                None
            },
            _ => None,
        },
        end,
    )
}

/// Reads a length out of a difference code.
pub fn rle_varint(buf: &Vec<u8>, pos: &mut usize) -> (r: Option<usize>)
    requires
        *old(pos) <= buf@.len(),
    ensures
        (r, *final(pos) as int) == rle_length(buf@, *old(pos) as int),
        *old(pos) <= *final(pos) <= buf@.len(),
        r is Some ==> *old(pos) < *final(pos),
{
    let (v, end) = decode_varint(buf, *pos, 0, 0, RLE_CAP);
    proof {
        lemma_length_consumes(buf@, *pos as int);
    }
    *pos = end;
    match v {
        Varint::Value(x) => if x <= usize::MAX as u64 {
            Some(x as usize)
        } else {
            None
        },
        _ => None,
    }
}

/// A length takes at least one byte.
pub proof fn lemma_length_consumes(buf: Seq<u8>, pos: int)
    requires
        0 <= pos <= buf.len(),
    ensures
        pos <= rle_length(buf, pos).1 <= buf.len(),
        rle_length(buf, pos).0 is Some ==> pos < rle_length(buf, pos).1,
{
    lemma_varint_at_bounds(buf, pos, 0, 0, RLE_CAP as int);
    if pos < buf.len() {
        super::parser::lemma_varint_tail_bounds(
            buf,
            pos + 1,
            (buf[pos] as int) % 128,
            RLE_CAP as int,
        );
    }
}

/// Where the decoding of differences stands: lengths of unchanged bytes and of
/// changed bytes take turns, and the changes follow the second of each pair.
pub ghost struct Rle0State {
    pub buf: Seq<u8>,
    pub pos: int,
    pub len0: int,
    pub lenv: int,
    pub need_decode0: bool,
}

/// `r` with `head` in front of its bytes.
pub open spec fn rle0_prefixed(
    head: Seq<u8>,
    r: Result<(Seq<u8>, Rle0State), HDiffError>,
) -> Result<(Seq<u8>, Rle0State), HDiffError> {
    match r {
        Ok((bytes, s)) => Ok((head + bytes, s)),
        Err(e) => Err(e),
    }
}

/// `base` with the differences from `s` on added to it.
pub open spec fn rle0_run(s: Rle0State, base: Seq<u8>) -> Result<
    (Seq<u8>, Rle0State),
    HDiffError,
>
    decreases base.len(), s.buf.len() - s.pos,
{
    if base.len() == 0 {
        Ok((Seq::empty(), s))
    } else if s.len0 > 0 {
        let n = min(s.len0, base.len() as int);
        rle0_prefixed(base.take(n), rle0_run(Rle0State { len0: s.len0 - n, ..s }, base.skip(n)))
    } else if s.lenv > 0 {
        if s.lenv > s.buf.len() - s.pos {
            Err(HDiffError::Rle0PastCodeBuffer)
        } else {
            let n = min(s.lenv, base.len() as int);
            rle0_prefixed(
                add_bytes(base.take(n), s.buf.subrange(s.pos, s.pos + n)),
                rle0_run(Rle0State { pos: s.pos + n, lenv: s.lenv - n, ..s }, base.skip(n)),
            )
        }
    } else {
        let (len, end) = rle_length(s.buf, s.pos);
        match len {
            None => if s.need_decode0 {
                Err(HDiffError::Rle0TruncatedLen0)
            } else {
                Err(HDiffError::Rle0TruncatedLenv)
            },
            Some(v) => if s.pos < end <= s.buf.len() {
                if s.need_decode0 {
                    rle0_run(
                        Rle0State { pos: end, len0: v as int, need_decode0: false, ..s },
                        base,
                    )
                } else {
                    rle0_run(
                        Rle0State { pos: end, lenv: v as int, need_decode0: true, ..s },
                        base,
                    )
                }
            } else {
                Err(HDiffError::Rle0TruncatedLen0)
            },
        }
    }
}

/// Decodes the differences of one step.
pub struct Rle0Decoder {
    pub buf: Vec<u8>,
    pub pos: usize,
    pub len0: usize,
    pub lenv: usize,
    pub need_decode0: bool,
}

impl View for Rle0Decoder {
    type V = Rle0State;

    open spec fn view(&self) -> Rle0State {
        Rle0State {
            buf: self.buf@,
            pos: self.pos as int,
            len0: self.len0 as int,
            lenv: self.lenv as int,
            need_decode0: self.need_decode0,
        }
    }
}

/// The state before the first difference of a step.
pub open spec fn first_rle0(buf: Seq<u8>) -> Rle0State {
    Rle0State { buf, pos: 0, len0: 0, lenv: 0, need_decode0: true }
}

impl Rle0Decoder {
    pub open spec fn wf(&self) -> bool {
        self.pos <= self.buf@.len()
    }

    pub fn new(buf: Vec<u8>) -> (r: Rle0Decoder)
        ensures
            r.wf(),
            r@ == first_rle0(buf@),
    {
        Rle0Decoder { buf, pos: 0, len0: 0, lenv: 0, need_decode0: true }
    }

    /// Adds the next differences to `data`.
    #[verifier::rlimit(60)]
    #[verifier::spinoff_prover]
    pub fn add(&mut self, data: &mut Vec<u8>) -> (r: Result<(), HDiffError>)
        requires
            old(self).wf(),
        ensures
            match rle0_run(old(self)@, old(data)@) {
                Ok((bytes, s)) => r is Ok && final(self).wf() && final(self)@ == s && final(data)@
                    == bytes,
                Err(e) => r == Err::<(), HDiffError>(e),
            },
            r is Ok ==> final(data)@.len() == old(data)@.len(),
    {
        let ghost base = data@;
        let ghost whole = rle0_run(self@, base);
        let total: usize = data.len();
        let mut dp: usize = 0;
        proof {
            assert(base.skip(0) =~= base);
            assert(base.take(0) =~= Seq::<u8>::empty());
            if whole is Ok {
                assert(Seq::<u8>::empty() + whole->Ok_0.0 =~= whole->Ok_0.0);
            }
        }
        while dp < total
            invariant
                self.wf(),
                dp <= total,
                total == base.len(),
                data@.len() == total,
                base == old(data)@,
                forall|i: int| dp <= i < total ==> data@[i] == base[i],
                whole == rle0_run(old(self)@, base),
                whole == rle0_prefixed(data@.take(dp as int), rle0_run(self@, base.skip(dp as int))),
            decreases total - dp, self.buf@.len() - self.pos,
        {
            let ghost before = self@;
            let ghost done = data@.take(dp as int);
            let ghost rest = base.skip(dp as int);
            let rem: usize = total - dp;
            if self.len0 > 0 {
                let n: usize = if self.len0 < rem {
                    self.len0
                } else {
                    rem
                };
                self.len0 = self.len0 - n;
                dp = dp + n;
                proof {
                    let tail = rle0_run(self@, rest.skip(n as int));
                    assert(rest.skip(n as int) =~= base.skip(dp as int));
                    assert(data@.take(dp as int) =~= done + rest.take(n as int));
                    lemma_rle0_prefixed_twice(done, rest.take(n as int), tail);
                }
            } else if self.lenv > 0 {
                if self.lenv > self.buf.len() - self.pos {
                    return Err(HDiffError::Rle0PastCodeBuffer);
                }
                let n: usize = if self.lenv < rem {
                    self.lenv
                } else {
                    rem
                };
                let ghost src = before.buf.subrange(before.pos, before.pos + n);
                self.add_codes(data, dp, n);
                self.lenv = self.lenv - n;
                self.pos = self.pos + n;
                dp = dp + n;
                proof {
                    let tail = rle0_run(self@, rest.skip(n as int));
                    let head = add_bytes(rest.take(n as int), src);
                    assert(rest.skip(n as int) =~= base.skip(dp as int));
                    assert(data@.take(dp as int) =~= done + head);
                    lemma_rle0_prefixed_twice(done, head, tail);
                }
            } else {
                let mut at: usize = self.pos;
                let len = rle_varint(&self.buf, &mut at);
                self.pos = at;
                match len {
                    None => {
                        if self.need_decode0 {
                            return Err(HDiffError::Rle0TruncatedLen0);
                        }
                        return Err(HDiffError::Rle0TruncatedLenv);
                    },
                    Some(v) => {
                        if self.need_decode0 {
                            self.need_decode0 = false;
                            self.len0 = v;
                        } else {
                            self.need_decode0 = true;
                            self.lenv = v;
                        }
                    },
                }
            }
        }
        proof {
            assert(base.skip(total as int).len() == 0);
            assert(data@.take(total as int) + Seq::<u8>::empty() =~= data@);
        }
        Ok(())
    }

    /// Adds the next `n` values of the code to `data[dp..dp + n]`.
    fn add_codes(&self, data: &mut Vec<u8>, dp: usize, n: usize)
        requires
            self.wf(),
            dp + n <= old(data)@.len(),
            self.pos + n <= self.buf@.len(),
        ensures
            final(data)@.len() == old(data)@.len(),
            forall|i: int|
                0 <= i < old(data)@.len() && !(dp <= i < dp + n) ==> final(data)@[i]
                    == old(data)@[i],
            forall|i: int|
                dp <= i < dp + n ==> final(data)@[i] == super::patch_core::wrap_add(
                    old(data)@[i],
                    self.buf@[self.pos + (i - dp)],
                ),
    {
        let total: usize = data.len();
        let limit: usize = self.buf.len();
        let mut i: usize = 0;
        while i < n
            invariant
                i <= n,
                dp + n <= total,
                self.pos + n <= limit,
                limit == self.buf@.len(),
                data@.len() == total,
                old(data)@.len() == total,
                forall|j: int|
                    0 <= j < total && !(dp <= j < dp + i) ==> data@[j] == old(data)@[j],
                forall|j: int|
                    dp <= j < dp + i ==> data@[j] == super::patch_core::wrap_add(
                        old(data)@[j],
                        self.buf@[self.pos + (j - dp)],
                    ),
            decreases n - i,
        {
            let d: u8 = data[dp + i];
            let c: u8 = self.buf[self.pos + i];
            data.set(dp + i, d.wrapping_add(c));
            i += 1;
        }
    }
}

pub proof fn lemma_rle0_prefixed_twice(
    a: Seq<u8>,
    b: Seq<u8>,
    r: Result<(Seq<u8>, Rle0State), HDiffError>,
)
    ensures
        rle0_prefixed(a, rle0_prefixed(b, r)) == rle0_prefixed(a + b, r),
{
    if r is Ok {
        assert(a + (b + r->Ok_0.0) =~= (a + b) + r->Ok_0.0);
    }
}

/// A cover of a step, and the ends of the last cover in the old and new data.
pub ghost struct SfCover {
    pub old_pos: int,
    pub new_pos: int,
    pub length: int,
    pub old_end: int,
    pub new_end: int,
}

/// The next cover of a step.
pub open spec fn sf_cover(covers: StreamView, last_old_end: int, last_new_end: int) -> Result<
    (SfCover, StreamView),
    HDiffError,
> {
    if covers.left() <= 0 {
        Err(covers.end_error())
    } else {
        let first = covers.data[covers.pos];
        let (delta, c1) = covers.at(covers.pos + 1).long_7bit(1, first);
        match delta {
            Err(e) => Err(e),
            Ok(delta) => {
                let old_pos = if first < 128 {
                    last_old_end + delta
                } else {
                    last_old_end - delta
                };
                if old_pos > u64::MAX {
                    Err(HDiffError::OldPosOverflow)
                } else if old_pos < 0 {
                    Err(HDiffError::OldPosUnderflow)
                } else {
                    sf_cover_lengths(old_pos, last_new_end, c1)
                }
            },
        }
    }
}

/// The second half of a cover, behind its old position.
pub open spec fn sf_cover_lengths(old_pos: int, last_new_end: int, c1: StreamView) -> Result<
    (SfCover, StreamView),
    HDiffError,
> {
    let (gap, c2) = c1.long_7bit(0, 0);
    match gap {
        Err(e) => Err(e),
        Ok(gap) => if last_new_end + gap > u64::MAX {
            Err(HDiffError::NewPosOverflow)
        } else {
            let (length, c3) = c2.long_7bit(0, 0);
            match length {
                Err(e) => Err(e),
                Ok(length) => {
                    let new_pos = last_new_end + gap;
                    if old_pos + length > u64::MAX {
                        Err(HDiffError::OldEndOverflow)
                    } else if new_pos + length > u64::MAX {
                        Err(HDiffError::NewEndOverflow)
                    } else {
                        Ok(
                            (
                                SfCover {
                                    old_pos,
                                    new_pos,
                                    length: length as int,
                                    old_end: old_pos + length,
                                    new_end: new_pos + length,
                                },
                                c3,
                            ),
                        )
                    }
                },
            }
        },
    }
}

/// Reads the next cover of a step, and moves the ends behind it.
pub fn decode_cover(covers: &mut ByteStream, last_old_end: &mut u64, last_new_end: &mut u64) -> (r:
    Result<(u64, u64, u64), HDiffError>)
    requires
        old(covers).wf(),
    ensures
        final(covers).wf(),
        match sf_cover(old(covers)@, *old(last_old_end) as int, *old(last_new_end) as int) {
            Ok((c, rest)) => {
                &&& r matches Ok(t)
                &&& t.0 == c.old_pos
                &&& t.1 == c.new_pos
                &&& t.2 == c.length
                &&& *final(last_old_end) == c.old_end
                &&& *final(last_new_end) == c.new_end
                &&& final(covers)@ == rest
                &&& old(covers)@.pos < rest.pos
                &&& *old(last_new_end) <= c.new_pos
                &&& c.new_end == c.new_pos + c.length
            },
            Err(e) => r == Err::<(u64, u64, u64), HDiffError>(e),
        },
{
    let first: u8 = covers.read_byte()?;
    proof {
        lemma_varint_at_bounds(
            covers@.data,
            covers@.pos,
            1,
            first,
            super::parser::LONG_CAP as int,
        );
    }
    let delta: i64 = covers.read_long_7bit_tagged(1, first)?;
    let old_pos: u64 = if first < 128 {
        match last_old_end.checked_add(delta as u64) {
            Some(v) => v,
            None => return Err(HDiffError::OldPosOverflow),
        }
    } else {
        match last_old_end.checked_sub(delta as u64) {
            Some(v) => v,
            None => return Err(HDiffError::OldPosUnderflow),
        }
    };
    proof {
        lemma_varint_at_bounds(covers@.data, covers@.pos, 0, 0, super::parser::LONG_CAP as int);
    }
    let gap: i64 = covers.read_long_7bit()?;
    let new_pos: u64 = match last_new_end.checked_add(gap as u64) {
        Some(v) => v,
        None => return Err(HDiffError::NewPosOverflow),
    };
    proof {
        lemma_varint_at_bounds(covers@.data, covers@.pos, 0, 0, super::parser::LONG_CAP as int);
    }
    let raw: i64 = covers.read_long_7bit()?;
    let length: u64 = raw as u64;
    let old_end: u64 = match old_pos.checked_add(length) {
        Some(v) => v,
        None => return Err(HDiffError::OldEndOverflow),
    };
    let new_end: u64 = match new_pos.checked_add(length) {
        Some(v) => v,
        None => return Err(HDiffError::NewEndOverflow),
    };
    *last_old_end = old_end;
    *last_new_end = new_end;
    Ok((old_pos, new_pos, length))
}

/// `rem` bytes of the old data from `pos`, in pieces of at most `chunk` bytes,
/// with the differences added.
pub open spec fn old_chunks(old: Seq<u8>, pos: int, rem: int, chunk: int, rle: Rle0State) -> Result<
    (Seq<u8>, Rle0State),
    HDiffError,
>
    decreases rem,
{
    if rem <= 0 || chunk <= 0 {
        Ok((Seq::empty(), rle))
    } else {
        let take = min(chunk, rem);
        if pos + take > old.len() {
            Err(HDiffError::UnexpectedEof)
        } else {
            match rle0_run(rle, old.subrange(pos, pos + take)) {
                Err(e) => Err(e),
                Ok((bytes, rle2)) => rle0_prefixed(
                    bytes,
                    old_chunks(old, pos + take, rem - take, chunk, rle2),
                ),
            }
        }
    }
}

/// The state of a patch between two covers: the stream of steps, the output so
/// far, the totals reported, the ends of the last cover, and the number of
/// covers to come.
pub ghost struct SfState {
    pub diff: StreamView,
    pub out: Seq<u8>,
    pub progress: Seq<u64>,
    pub old_end: int,
    pub new_end: int,
    pub left: int,
}

impl SfState {
    /// Adds `bytes` to the output, and reports the new total.
    pub open spec fn put(self, bytes: Seq<u8>) -> SfState {
        SfState {
            out: self.out + bytes,
            progress: self.progress.push((self.out + bytes).len() as u64),
            ..self
        }
    }

    /// Adds `n` literal bytes to the output.
    pub open spec fn literal(self, n: int) -> Result<SfState, HDiffError> {
        if self.diff.left() < n {
            Err(self.diff.end_error())
        } else {
            Ok(
                SfState { diff: self.diff.at(self.diff.pos + n), ..self }.put(
                    self.diff.next_bytes(n),
                ),
            )
        }
    }

    /// Applies the next cover of a step, with the literal bytes before it.
    pub open spec fn cover(
        self,
        old: Seq<u8>,
        covers: StreamView,
        rle: Rle0State,
        chunk: int,
    ) -> Result<(SfState, StreamView, Rle0State), HDiffError> {
        match sf_cover(covers, self.old_end, self.new_end) {
            Err(e) => Err(e),
            Ok((c, rest)) => {
                let filled = if c.new_pos > self.new_end {
                    self.literal(c.new_pos - self.new_end)
                } else {
                    Ok(self)
                };
                match filled {
                    Err(e) => Err(e),
                    Ok(s) => {
                        let t = SfState {
                            old_end: c.old_end,
                            new_end: c.new_end,
                            left: s.left - 1,
                            ..s
                        };
                        if c.length <= 0 {
                            Ok((t, rest, rle))
                        } else if c.old_pos > i64::MAX {
                            Err(HDiffError::SeekOutOfRange)
                        } else {
                            match old_chunks(old, c.old_pos, c.length, chunk, rle) {
                                Err(e) => Err(e),
                                Ok((bytes, rle2)) => Ok((t.put(bytes), rest, rle2)),
                            }
                        }
                    },
                }
            },
        }
    }

    /// Applies the covers of a step.
    pub open spec fn covers(
        self,
        old: Seq<u8>,
        covers: StreamView,
        rle: Rle0State,
        chunk: int,
    ) -> Result<SfState, HDiffError>
        decreases covers.left(),
    {
        if covers.left() <= 0 || self.left <= 0 {
            Ok(self)
        } else {
            match self.cover(old, covers, rle, chunk) {
                Err(e) => Err(e),
                Ok((s, rest, rle2)) => if 0 <= rest.left() < covers.left() {
                    s.covers(old, rest, rle2, chunk)
                } else {
                    Ok(s)
                },
            }
        }
    }

    /// Takes the steps until no cover is left, then the literal bytes behind
    /// the last one. A step is the sizes of its cover list and of its
    /// differences, then both.
    pub open spec fn steps(self, old: Seq<u8>, new_data_size: int, chunk: int) -> Result<
        SfState,
        HDiffError,
    >
        decreases self.diff.left(),
    {
        if self.left <= 0 {
            if self.new_end < new_data_size {
                self.literal(new_data_size - self.new_end)
            } else {
                Ok(self)
            }
        } else {
            match self.step(old, chunk) {
                Err(e) => Err(e),
                Ok(s) => if 0 <= s.diff.left() < self.diff.left() {
                    s.steps(old, new_data_size, chunk)
                } else {
                    Ok(s)
                },
            }
        }
    }

    /// Takes one step.
    pub open spec fn step(self, old: Seq<u8>, chunk: int) -> Result<SfState, HDiffError> {
        let (cover_size, d1) = self.diff.long_7bit(0, 0);
        match cover_size {
            Err(e) => Err(e),
            Ok(a) => {
                let (rle_size, d2) = d1.long_7bit(0, 0);
                match rle_size {
                    Err(e) => Err(e),
                    Ok(b) => if a + b > MAX_STEP_SIZE {
                        Err(HDiffError::StepSizeTooLarge)
                    } else if a + b > chunk {
                        Err(HDiffError::StepSizeExceedsBuffer)
                    } else if d2.left() < a + b {
                        Err(d2.end_error())
                    } else {
                        SfState { diff: d2.at(d2.pos + a + b), ..self }.covers(
                            old,
                            StreamView {
                                data: d2.data.subrange(d2.pos, d2.pos + a),
                                pos: 0,
                                damaged: false,
                            },
                            first_rle0(d2.data.subrange(d2.pos + a, d2.pos + a + b)),
                            chunk,
                        )
                    },
                }
            },
        }
    }
}

/// The mutable parts of a patch that is applied.
pub struct SfPatcher {
    pub diff: ByteStream,
    pub out: Vec<u8>,
    pub progress: Vec<u64>,
    pub old_end: u64,
    pub new_end: u64,
    pub left: u64,
}

impl View for SfPatcher {
    type V = SfState;

    open spec fn view(&self) -> SfState {
        SfState {
            diff: self.diff@,
            out: self.out@,
            progress: self.progress@,
            old_end: self.old_end as int,
            new_end: self.new_end as int,
            left: self.left as int,
        }
    }
}

impl SfPatcher {
    pub open spec fn wf(&self) -> bool {
        self.diff.wf()
    }

    /// Adds `n` literal bytes to the output.
    fn copy_n(&mut self, n: u64) -> (r: Result<(), HDiffError>)
        requires
            old(self).wf(),
        ensures
            match old(self)@.literal(n as int) {
                Ok(s) => r is Ok && final(self).wf() && final(self)@ == s,
                Err(e) => r == Err::<(), HDiffError>(e),
            },
    {
        if n > usize::MAX as u64 {
            let total: usize = self.diff.data.len();
            assert(total == self.diff.data@.len());
            return Err(self.diff.end_error());
        }
        let mut bytes: Vec<u8> = self.diff.read_exact(n as usize)?;
        self.out.append(&mut bytes);
        self.progress.push(self.out.len() as u64);
        Ok(())
    }

    /// Adds a stretch of the old data to the output, with the differences added.
    fn copy_old(
        &mut self,
        old_data: &Vec<u8>,
        old_pos: u64,
        length: u64,
        chunk: usize,
        rle0: &mut Rle0Decoder,
    ) -> (r: Result<(), HDiffError>)
        requires
            old(self).wf(),
            old(rle0).wf(),
            chunk > 0,
            length > 0,
            old_pos + length <= u64::MAX,
        ensures
            match old_chunks(
                old_data@,
                old_pos as int,
                length as int,
                chunk as int,
                old(rle0)@,
            ) {
                Ok((bytes, s)) => {
                    &&& r is Ok
                    &&& final(self).wf()
                    &&& final(self)@ == old(self)@.put(bytes)
                    &&& final(rle0).wf()
                    &&& final(rle0)@ == s
                },
                Err(e) => r == Err::<(), HDiffError>(e),
            },
    {
        let ghost whole = old_chunks(
            old_data@,
            old_pos as int,
            length as int,
            chunk as int,
            rle0@,
        );
        let total: usize = old_data.len();
        let mut pos: u64 = old_pos;
        let mut rem: u64 = length;
        let ghost mut done: Seq<u8> = Seq::empty();
        proof {
            if whole is Ok {
                assert(done + whole->Ok_0.0 =~= whole->Ok_0.0);
            }
            assert(self.out@ + done =~= self.out@);
        }
        while rem > 0
            invariant
                rle0.wf(),
                chunk > 0,
                total == old_data@.len(),
                pos + rem == old_pos + length,
                old_pos + length <= u64::MAX,
                self.diff == old(self).diff,
                self.progress == old(self).progress,
                self.old_end == old(self).old_end,
                self.new_end == old(self).new_end,
                self.left == old(self).left,
                self.out@ == old(self).out@ + done,
                whole == old_chunks(
                    old_data@,
                    old_pos as int,
                    length as int,
                    chunk as int,
                    old(rle0)@,
                ),
                whole == rle0_prefixed(
                    done,
                    old_chunks(old_data@, pos as int, rem as int, chunk as int, rle0@),
                ),
            decreases rem,
        {
            let take: u64 = if (chunk as u64) < rem {
                chunk as u64
            } else {
                rem
            };
            if pos > total as u64 || take > total as u64 - pos {
                return Err(HDiffError::UnexpectedEof);
            }
            let mut piece: Vec<u8> = vstd::slice::slice_to_vec(
                vstd::slice::slice_subrange(
                    old_data.as_slice(),
                    pos as usize,
                    (pos + take) as usize,
                ),
            );
            rle0.add(&mut piece)?;
            proof {
                let tail = old_chunks(
                    old_data@,
                    pos + take,
                    rem - take,
                    chunk as int,
                    rle0@,
                );
                lemma_rle0_prefixed_twice(done, piece@, tail);
                assert(self.out@ + piece@ =~= old(self).out@ + (done + piece@));
                done = done + piece@;
            }
            self.out.append(&mut piece);
            pos = pos + take;
            rem = rem - take;
        }
        proof {
            assert(done + Seq::<u8>::empty() =~= done);
        }
        self.progress.push(self.out.len() as u64);
        Ok(())
    }

    /// Applies the covers of one step.
    fn apply_step(
        &mut self,
        old_data: &Vec<u8>,
        step_covers: ByteStream,
        step_rle0: Rle0Decoder,
        chunk: usize,
    ) -> (r: Result<(), HDiffError>)
        requires
            old(self).wf(),
            step_covers.wf(),
            step_rle0.wf(),
            chunk > 0,
        ensures
            match old(self)@.covers(old_data@, step_covers@, step_rle0@, chunk as int) {
                Ok(s) => r is Ok && final(self).wf() && final(self)@ == s
                    && final(self).diff.left_at_most(old(self).diff),
                Err(e) => r == Err::<(), HDiffError>(e),
            },
    {
        let ghost whole = self@.covers(old_data@, step_covers@, step_rle0@, chunk as int);
        let mut covers = step_covers;
        let mut rle0 = step_rle0;
        while covers.pos < covers.data.len() && self.left > 0
            invariant
                self.wf(),
                covers.wf(),
                rle0.wf(),
                chunk > 0,
                self.diff.left_at_most(old(self).diff),
                whole == old(self)@.covers(old_data@, step_covers@, step_rle0@, chunk as int),
                whole == self@.covers(old_data@, covers@, rle0@, chunk as int),
            decreases covers.data@.len() - covers.pos,
        {
            let prev_new_end: u64 = self.new_end;
            let (old_pos, new_pos, length) = decode_cover(
                &mut covers,
                &mut self.old_end,
                &mut self.new_end,
            )?;
            if new_pos > prev_new_end {
                self.copy_n(new_pos - prev_new_end)?;
            }
            self.left = self.left - 1;
            if length > 0 {
                if old_pos > i64::MAX as u64 {
                    return Err(HDiffError::SeekOutOfRange);
                }
                self.copy_old(old_data, old_pos, length, chunk, &mut rle0)?;
            }
        }
        Ok(())
    }
}

/// The state before the first step.
pub open spec fn first_sf_state(diff: StreamView, cover_count: int) -> SfState {
    SfState {
        diff,
        out: Seq::empty(),
        progress: Seq::empty(),
        old_end: 0,
        new_end: 0,
        left: cover_count,
    }
}

/// Applies the steps in `diff` to the old data. A step may be as long as
/// `step_mem_size`, and the old data is taken in pieces of that size.
pub fn patch_loop(
    diff: ByteStream,
    old_data: &Vec<u8>,
    cover_count: u64,
    new_data_size: u64,
    step_mem_size: usize,
) -> (r: Result<PatchOutput, HDiffError>)
    requires
        diff.wf(),
        step_mem_size > 0,
    ensures
        match first_sf_state(diff@, cover_count as int).steps(
            old_data@,
            new_data_size as int,
            step_mem_size as int,
        ) {
            Ok(s) => r matches Ok(o) && o.data@ == s.out && o.progress@ == s.progress,
            Err(e) => r matches Err(f) && f == e,
        },
{
    let ghost first = first_sf_state(diff@, cover_count as int);
    let ghost whole = first.steps(old_data@, new_data_size as int, step_mem_size as int);
    let mut p = SfPatcher {
        diff,
        out: Vec::new(),
        progress: Vec::new(),
        old_end: 0,
        new_end: 0,
        left: cover_count,
    };
    assert(p@ == first);
    while p.left > 0
        invariant
            p.wf(),
            step_mem_size > 0,
            whole == first_sf_state(diff@, cover_count as int).steps(
                old_data@,
                new_data_size as int,
                step_mem_size as int,
            ),
            whole == p@.steps(old_data@, new_data_size as int, step_mem_size as int),
        decreases p.diff@.left(),
    {
        let ghost start = p@;
        proof {
            lemma_long_consumes(p.diff@);
        }
        let cover_size: i64 = p.diff.read_long_7bit()?;
        proof {
            lemma_long_consumes(p.diff@);
        }
        let rle_size: i64 = p.diff.read_long_7bit()?;
        let ghost d2 = p.diff@;
        let step_end: u64 = cover_size as u64 + rle_size as u64;
        if step_end > MAX_STEP_SIZE as u64 {
            return Err(HDiffError::StepSizeTooLarge);
        }
        if step_end > step_mem_size as u64 {
            return Err(HDiffError::StepSizeExceedsBuffer);
        }
        let mut covers_bytes: Vec<u8> = p.diff.read_exact(step_end as usize)?;
        let rle_bytes: Vec<u8> = covers_bytes.split_off(cover_size as usize);
        proof {
            assert(covers_bytes@ =~= d2.data.subrange(d2.pos, d2.pos + cover_size));
            assert(rle_bytes@ =~= d2.data.subrange(
                d2.pos + cover_size,
                d2.pos + cover_size + rle_size,
            ));
        }
        let covers = ByteStream::new(covers_bytes);
        let rle0 = Rle0Decoder::new(rle_bytes);
        p.apply_step(old_data, covers, rle0, step_mem_size)?;
    }
    if p.new_end < new_data_size {
        p.copy_n(new_data_size - p.new_end)?;
    }
    Ok(PatchOutput { data: p.out, progress: p.progress })
}

/// An integer takes at least one byte.
pub proof fn lemma_long_consumes(s: StreamView)
    requires
        s.wf(),
    ensures
        s.long_7bit(0, 0).1.wf(),
        s.long_7bit(0, 0).0 is Ok ==> s.long_7bit(0, 0).1.left() < s.left(),
{
    lemma_varint_at_bounds(s.data, s.pos, 0, 0, super::parser::LONG_CAP as int);
    if s.pos < s.data.len() {
        super::parser::lemma_varint_tail_bounds(
            s.data,
            s.pos + 1,
            (s.data[s.pos] as int) % 128,
            super::parser::LONG_CAP as int,
        );
    }
}

/// The size of a step, as far as it is allowed.
pub open spec fn step_limit(step_mem_size: i64) -> int {
    min(step_mem_size as int, MAX_STEP_SIZE as int)
}

/// What a patch in one stream makes of the old data.
pub open spec fn single_stream_output(old: Seq<u8>, file: Seq<u8>, h: HeaderInfo) -> Result<
    SfState,
    HDiffError,
> {
    let sci = h.single_chunk_info;
    match clip_stream(
        file,
        h.comp_mode,
        unsigned_bits(sci.diff_data_pos),
        unsigned_bits(sci.uncompressed_size),
        unsigned_bits(sci.compressed_size),
        false,
    ) {
        Err(e) => Err(e),
        Ok(diff) => if h.chunk_info.cover_count < 0 {
            Err(HDiffError::CoverCountNegative)
        } else if h.new_data_size < 0 {
            Err(HDiffError::NewDataSizeNegative)
        } else if h.step_mem_size <= 0 {
            Err(HDiffError::StepMemSizeNonPositive)
        } else {
            first_sf_state(diff, h.chunk_info.cover_count as int).steps(
                old,
                h.new_data_size as int,
                step_limit(h.step_mem_size),
            )
        },
    }
}

/// Applies patches in one stream.
pub struct PatchSF {
    pub header_info: HeaderInfo,
}

impl PatchSF {
    pub fn new(header_info: HeaderInfo) -> (r: Self)
        ensures
            r.header_info == header_info,
    {
        PatchSF { header_info }
    }

    /// Applies the patch in `patch_file`, if there is one, to the old data.
    pub fn patch(&self, old_data: &Vec<u8>, patch_file: Option<&Vec<u8>>) -> (r: Result<
        PatchOutput,
        HDiffError,
    >)
        ensures
            match patch_file {
                None => r matches Err(e) && e == HDiffError::NotFound,
                Some(file) => match single_stream_output(old_data@, file@, self.header_info) {
                    Ok(s) => r matches Ok(o) && o.data@ == s.out && o.progress@ == s.progress,
                    Err(e) => r matches Err(f) && f == e,
                },
            },
    {
        let file = match patch_file {
            Some(f) => f,
            None => return Err(HDiffError::NotFound),
        };
        let h = &self.header_info;
        let sci = &h.single_chunk_info;
        let (diff, _) = get_clip_stream(
            file,
            h.comp_mode,
            to_unsigned_bits(sci.diff_data_pos),
            to_unsigned_bits(sci.uncompressed_size),
            to_unsigned_bits(sci.compressed_size),
            false,
        )?;
        if h.chunk_info.cover_count < 0 {
            return Err(HDiffError::CoverCountNegative);
        }
        if h.new_data_size < 0 {
            return Err(HDiffError::NewDataSizeNegative);
        }
        if h.step_mem_size <= 0 {
            return Err(HDiffError::StepMemSizeNonPositive);
        }
        let step: usize = if (h.step_mem_size as u64) < MAX_STEP_SIZE as u64 {
            h.step_mem_size as usize
        } else {
            MAX_STEP_SIZE
        };
        patch_loop(
            diff,
            old_data,
            h.chunk_info.cover_count as u64,
            h.new_data_size as u64,
            step,
        )
    }
}

} // verus!

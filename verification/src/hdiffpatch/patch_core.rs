//! Run-length decoding and the application of covers.
//!
//! The new data is the byte-wise sum, modulo 256, of a base and a run-length
//! coded difference. The base is made of stretches of the old data (the
//! covers) with literal bytes between them. The difference is a list of runs
//! in a control stream, whose values stand in a code stream.

use vstd::prelude::*;
use super::cover::cover_list;
use super::cover::enumerate_cover_headers;
use super::cover::first_cover_state;
use super::cover::law_covers_are_ordered;
use super::error::HDiffError;
use super::header::empty_clip;
use super::header::CoverHeader;
use super::header::HeaderInfo;
use super::header::RleRefClip;
use super::header::K_BYTE_RLE_TYPE;
use super::header::MAX_ARRAY_POOL_LEN;
use super::header::MAX_ARRAY_POOL_SECOND_OFFSET;
use super::header::MAX_MEM_BUFFER_LIMIT;
use super::parser::ByteStream;
use super::parser::StreamView;

verus! {

/// The sum of two bytes modulo 256.
pub open spec fn wrap_add(a: u8, b: u8) -> u8 {
    ((a + b) % 256) as u8
}

/// `s` with `v` added to every byte.
pub open spec fn add_value(s: Seq<u8>, v: u8) -> Seq<u8> {
    Seq::new(s.len(), |i: int| wrap_add(s[i], v))
}

/// The byte-wise sum of `a` and `b`.
pub open spec fn add_bytes(a: Seq<u8>, b: Seq<u8>) -> Seq<u8> {
    Seq::new(a.len(), |i: int| wrap_add(a[i], b[i]))
}

/// `data` with `bytes` written over it at `pos`.
pub open spec fn overwrite(data: Seq<u8>, pos: int, bytes: Seq<u8>) -> Seq<u8> {
    Seq::new(
        if pos + bytes.len() > data.len() {
            (pos + bytes.len()) as nat
        } else {
            data.len()
        },
        |i: int|
            if pos <= i < pos + bytes.len() {
                bytes[i - pos]
            } else {
                data[i]
            },
    )
}

pub open spec fn min(a: int, b: int) -> int {
    if a < b {
        a
    } else {
        b
    }
}

/// Bytes in memory with a position for reading and writing.
pub struct ByteCursor {
    pub data: Vec<u8>,
    pub pos: usize,
}

impl ByteCursor {
    pub fn new(data: Vec<u8>) -> (r: ByteCursor)
        ensures
            r.data@ == data@,
            r.pos == 0,
    {
        ByteCursor { data, pos: 0 }
    }

    pub fn position(&self) -> (r: u64)
        ensures
            r == self.pos,
    {
        self.pos as u64
    }

    /// Writes `src[from..from + n]` at the position, over what stands there and
    /// past the end, and moves the position behind it.
    fn write_range(&mut self, src: &Vec<u8>, from: usize, n: usize)
        requires
            from + n <= src@.len(),
            old(self).pos <= old(self).data@.len(),
            old(self).pos + n <= usize::MAX,
        ensures
            final(self).data@ == overwrite(
                old(self).data@,
                old(self).pos as int,
                src@.subrange(from as int, from + n),
            ),
            final(self).pos == old(self).pos + n,
    {
        let start: usize = self.pos;
        let total: usize = src.len();
        let mut i: usize = 0;
        while i < n
            invariant
                i <= n,
                from + n <= total,
                total == src@.len(),
                start == old(self).pos,
                start + n <= usize::MAX,
                self.pos == start,
                start <= old(self).data@.len(),
                self.data@ == overwrite(
                    old(self).data@,
                    start as int,
                    src@.subrange(from as int, from + i),
                ),
            decreases n - i,
        {
            let ghost before = self.data@;
            if start + i < self.data.len() {
                self.data.set(start + i, src[from + i]);
            } else {
                self.data.push(src[from + i]);
            }
            i += 1;
            proof {
                assert(self.data@ =~= overwrite(
                    old(self).data@,
                    start as int,
                    src@.subrange(from as int, from + i),
                ));
            }
        }
        self.pos = start + n;
        proof {
            if n == 0 {
                assert(self.data@ =~= old(self).data@);
            }
        }
    }
}

/// The decoder's state in the middle of a stretch: the current runs, the cache
/// and its position, the bytes of the stretch not decoded yet, and the scratch
/// buffer.
pub ghost struct CacheState {
    pub clip: RleRefClip,
    pub data: Seq<u8>,
    pub pos: int,
    pub left: int,
    pub buf: Seq<u8>,
}

impl CacheState {
    /// The number of bytes of the run of one value that one step takes.
    pub open spec fn set_step(self) -> int {
        min(min(self.clip.mem_set_length as int, self.left), self.buf.len() as int)
    }

    /// One step of the run of one value. Bytes to change that the cache does
    /// not hold are an error.
    pub open spec fn after_set(self) -> Option<CacheState> {
        let n = self.set_step();
        let clip = RleRefClip {
            mem_set_length: (self.clip.mem_set_length - n) as i64,
            ..self.clip
        };
        if self.clip.mem_set_value == 0 || n == 0 {
            Some(CacheState { clip, pos: self.pos + n, left: self.left - n, ..self })
        } else if self.pos + n > self.data.len() {
            None
        } else {
            let sum = add_value(self.data.subrange(self.pos, self.pos + n), self.clip.mem_set_value);
            Some(
                CacheState {
                    clip,
                    data: overwrite(self.data, self.pos, sum),
                    pos: self.pos + n,
                    left: self.left - n,
                    buf: overwrite(self.buf, 0, sum),
                },
            )
        }
    }

    /// The number of bytes of the run of code values that one step takes.
    pub open spec fn copy_step(self) -> int {
        min(
            min(self.clip.mem_copy_length as int, self.left),
            MAX_ARRAY_POOL_SECOND_OFFSET as int,
        )
    }

    /// The buffer holds what a step of the run of code values brings: the values,
    /// and behind them the bytes that they are added to.
    pub open spec fn holds_codes(self) -> bool {
        self.clip.mem_copy_length > 0 ==> match self.after_set() {
            Some(t) => t.buf.len() >= MAX_ARRAY_POOL_SECOND_OFFSET + t.copy_step(),
            None => true,
        }
    }

    /// One step of the run of code values, which are `code`.
    pub open spec fn after_copy(self, code: Seq<u8>) -> CacheState {
        let n = code.len();
        let old = self.data.subrange(self.pos, self.pos + n);
        let sum = add_bytes(code, old);
        CacheState {
            clip: RleRefClip {
                mem_copy_length: (self.clip.mem_copy_length - n) as i64,
                ..self.clip
            },
            data: overwrite(self.data, self.pos, sum),
            pos: self.pos + n,
            left: self.left - n,
            buf: overwrite(
                overwrite(self.buf, MAX_ARRAY_POOL_SECOND_OFFSET as int, old),
                0,
                sum,
            ),
        }
    }
}

/// The state that the four mutable parts of the decoder make up.
pub open spec fn cache_state(
    clip: RleRefClip,
    cache: ByteCursor,
    left: i64,
    buf: Vec<u8>,
) -> CacheState {
    CacheState { clip, data: cache.data@, pos: cache.pos as int, left: left as int, buf: buf@ }
}

/// Takes one step of the run of one value: adds the value to the bytes at the
/// cache's position, as many as the run, the stretch and the buffer allow. A
/// value of zero only moves the position.
pub fn tbytes_set_rle_single(
    rle_loader: &mut RleRefClip,
    out_cache: &mut ByteCursor,
    copy_length: &mut i64,
    shared_buffer: &mut Vec<u8>,
) -> (r: Result<(), HDiffError>)
    requires
        old(rle_loader).mem_set_length >= 0,
        *old(copy_length) >= 0,
        old(out_cache).pos + *old(copy_length) <= usize::MAX,
    ensures
        match cache_state(
            *old(rle_loader),
            *old(out_cache),
            *old(copy_length),
            *old(shared_buffer),
        ).after_set() {
            Some(s) => r is Ok && cache_state(
                *final(rle_loader),
                *final(out_cache),
                *final(copy_length),
                *final(shared_buffer),
            ) == s,
            None => r == Err::<(), HDiffError>(HDiffError::UnexpectedEof) && *final(rle_loader)
                == *old(rle_loader) && *final(out_cache) == *old(out_cache) && *final(copy_length)
                == *old(copy_length) && *final(shared_buffer) == *old(shared_buffer),
        },
{
    let ghost start = cache_state(*rle_loader, *out_cache, *copy_length, *shared_buffer);
    let mut wide: u64 = rle_loader.mem_set_length as u64;
    if (*copy_length as u64) < wide {
        wide = *copy_length as u64;
    }
    if (shared_buffer.len() as u64) < wide {
        wide = shared_buffer.len() as u64;
    }
    let step: usize = wide as usize;
    assert(step == start.set_step());
    let v: u8 = rle_loader.mem_set_value;
    if v != 0 && step > 0 {
        let total: usize = out_cache.data.len();
        if out_cache.pos > total || total - out_cache.pos < step {
            return Err(HDiffError::UnexpectedEof);
        }
        let pos: usize = out_cache.pos;
        let mut i: usize = 0;
        while i < step
            invariant
                i <= step <= shared_buffer@.len(),
                pos + step <= total,
                total == out_cache.data@.len(),
                pos == out_cache.pos,
                *out_cache == *old(out_cache),
                shared_buffer@.len() == old(shared_buffer)@.len(),
                forall|j: int|
                    0 <= j < i ==> shared_buffer@[j] == wrap_add(out_cache.data@[pos + j], v),
                forall|j: int|
                    i <= j < shared_buffer@.len() ==> shared_buffer@[j] == old(shared_buffer)@[j],
            decreases step - i,
        {
            let b: u8 = out_cache.data[pos + i].wrapping_add(v);
            shared_buffer.set(i, b);
            i += 1;
        }
        let ghost sum = add_value(out_cache.data@.subrange(pos as int, pos + step), v);
        assert(shared_buffer@ =~= overwrite(old(shared_buffer)@, 0, sum));
        assert(shared_buffer@.subrange(0, 0 + step) =~= sum);
        out_cache.write_range(shared_buffer, 0, step);
    } else {
        out_cache.pos = out_cache.pos + step;
    }
    *copy_length = *copy_length - step as i64;
    rle_loader.mem_set_length = rle_loader.mem_set_length - step as i64;
    Ok(())
}

/// `buf` after `buf[rle_idx + i] += buf[old_idx + i]` for `i` from 0 to `n`, in
/// that order.
pub open spec fn serial_add(buf: Seq<u8>, rle_idx: int, old_idx: int, n: int) -> Seq<u8>
    decreases n,
{
    if n <= 0 {
        buf
    } else {
        let b = serial_add(buf, rle_idx, old_idx, n - 1);
        b.update(rle_idx + n - 1, wrap_add(b[rle_idx + n - 1], b[old_idx + n - 1]))
    }
}

/// On ranges that do not overlap, the serial sum is the byte-wise sum, and
/// nothing else changes.
pub proof fn lemma_serial_add_disjoint(buf: Seq<u8>, rle_idx: int, old_idx: int, n: int)
    requires
        0 <= n,
        0 <= rle_idx,
        0 <= old_idx,
        rle_idx + n <= buf.len(),
        old_idx + n <= buf.len(),
        rle_idx + n <= old_idx || old_idx + n <= rle_idx,
    ensures
        serial_add(buf, rle_idx, old_idx, n).len() == buf.len(),
        forall|i: int|
            0 <= i < buf.len() ==> serial_add(buf, rle_idx, old_idx, n)[i] == (if rle_idx <= i
                < rle_idx + n {
                wrap_add(buf[i], buf[old_idx + (i - rle_idx)])
            } else {
                buf[i]
            }),
    decreases n,
{
    if n > 0 {
        lemma_serial_add_disjoint(buf, rle_idx, old_idx, n - 1);
    }
}

/// Takes one step of the run of code values: adds the old bytes at `old_idx` to
/// the code values at `rle_idx`, and writes the sums to the cache.
pub fn tbytes_set_rle_vector_software(
    rle_loader: &mut RleRefClip,
    out_cache: &mut ByteCursor,
    copy_length: &mut i64,
    decode_step: usize,
    buf: &mut Vec<u8>,
    rle_idx: usize,
    old_idx: usize,
) -> (r: Result<(), HDiffError>)
    requires
        rle_idx + decode_step <= old(buf)@.len(),
        old_idx + decode_step <= old(buf)@.len(),
        old(out_cache).pos <= old(out_cache).data@.len(),
        old(out_cache).pos + decode_step <= usize::MAX,
        decode_step <= old(rle_loader).mem_copy_length,
        decode_step <= *old(copy_length),
    ensures
        r is Ok,
        final(buf)@ == serial_add(old(buf)@, rle_idx as int, old_idx as int, decode_step as int),
        final(out_cache).data@ == overwrite(
            old(out_cache).data@,
            old(out_cache).pos as int,
            final(buf)@.subrange(rle_idx as int, rle_idx + decode_step),
        ),
        final(out_cache).pos == old(out_cache).pos + decode_step,
        *final(rle_loader) == (RleRefClip {
            mem_copy_length: (old(rle_loader).mem_copy_length - decode_step) as i64,
            ..*old(rle_loader)
        }),
        *final(copy_length) == *old(copy_length) - decode_step,
{
    let total: usize = buf.len();
    let mut i: usize = 0;
    while i < decode_step
        invariant
            i <= decode_step,
            rle_idx + decode_step <= total,
            old_idx + decode_step <= total,
            total == buf@.len(),
            buf@ == serial_add(old(buf)@, rle_idx as int, old_idx as int, i as int),
        decreases decode_step - i,
    {
        let v: u8 = buf[old_idx + i];
        let d: u8 = buf[rle_idx + i];
        buf.set(rle_idx + i, d.wrapping_add(v));
        i += 1;
    }
    out_cache.write_range(buf, rle_idx, decode_step);
    rle_loader.mem_copy_length = rle_loader.mem_copy_length - decode_step as i64;
    *copy_length = *copy_length - decode_step as i64;
    Ok(())
}

/// One step of both runs, the run of one value first. The second component is
/// the code stream behind the values taken.
pub open spec fn rle_step(s: CacheState, code: StreamView) -> Result<
    (CacheState, StreamView),
    HDiffError,
> {
    match s.after_set() {
        None => Err(HDiffError::UnexpectedEof),
        Some(t) => {
            let n = t.copy_step();
            if t.clip.mem_copy_length == 0 {
                Ok((t, code))
            } else if code.left() < n {
                Err(code.end_error())
            } else if n > 0 && t.pos + n > t.data.len() {
                Err(HDiffError::UnexpectedEof)
            } else if n == 0 {
                Ok((t, code))
            } else {
                Ok((t.after_copy(code.next_bytes(n)), code.at(code.pos + n)))
            }
        },
    }
}

/// Takes one step of the run of one value, then one step of the run of code
/// values.
pub fn tbytes_set_rle(
    rle_loader: &mut RleRefClip,
    out_cache: &mut ByteCursor,
    copy_length: &mut i64,
    shared_buffer: &mut Vec<u8>,
    rle_code_stream: &mut ByteStream,
) -> (r: Result<(), HDiffError>)
    requires
        old(rle_loader).mem_set_length >= 0,
        old(rle_loader).mem_copy_length >= 0,
        *old(copy_length) >= 0,
        old(out_cache).pos + *old(copy_length) <= usize::MAX,
        old(rle_code_stream).wf(),
        cache_state(
            *old(rle_loader),
            *old(out_cache),
            *old(copy_length),
            *old(shared_buffer),
        ).holds_codes(),
    ensures
        final(rle_code_stream).wf(),
        match rle_step(
            cache_state(
                *old(rle_loader),
                *old(out_cache),
                *old(copy_length),
                *old(shared_buffer),
            ),
            old(rle_code_stream)@,
        ) {
            Ok((s, code)) => r is Ok && cache_state(
                *final(rle_loader),
                *final(out_cache),
                *final(copy_length),
                *final(shared_buffer),
            ) == s && final(rle_code_stream)@ == code,
            Err(e) => r == Err::<(), HDiffError>(e),
        },
{
    tbytes_set_rle_single(rle_loader, out_cache, copy_length, shared_buffer)?;
    let ghost mid = cache_state(*rle_loader, *out_cache, *copy_length, *shared_buffer);
    if rle_loader.mem_copy_length == 0 {
        return Ok(());
    }
    let second: usize = MAX_ARRAY_POOL_SECOND_OFFSET;
    let mut wide: u64 = rle_loader.mem_copy_length as u64;
    if (*copy_length as u64) < wide {
        wide = *copy_length as u64;
    }
    if (second as u64) < wide {
        wide = second as u64;
    }
    let decode_step: usize = wide as usize;
    assert(decode_step == mid.copy_step());
    let code: Vec<u8> = rle_code_stream.read_exact(decode_step)?;
    if decode_step == 0 {
        proof {
            assert(rle_code_stream@ == old(rle_code_stream)@);
        }
        return Ok(());
    }
    let total: usize = out_cache.data.len();
    if out_cache.pos > total || total - out_cache.pos < decode_step {
        return Err(HDiffError::UnexpectedEof);
    }
    let pos: usize = out_cache.pos;
    let mut i: usize = 0;
    while i < decode_step
        invariant
            i <= decode_step <= second,
            second == MAX_ARRAY_POOL_SECOND_OFFSET,
            code@.len() == decode_step,
            pos + decode_step <= total,
            total == out_cache.data@.len(),
            shared_buffer@.len() == mid.buf.len(),
            mid.buf.len() >= second + decode_step,
            forall|j: int| 0 <= j < i ==> shared_buffer@[j] == code@[j],
            forall|j: int| i <= j < second ==> shared_buffer@[j] == mid.buf[j],
            forall|j: int|
                second <= j < second + i ==> shared_buffer@[j] == out_cache.data@[pos + (j
                    - second)],
            forall|j: int|
                second + i <= j < shared_buffer@.len() ==> shared_buffer@[j] == mid.buf[j],
        decreases decode_step - i,
    {
        let c: u8 = code[i];
        let o: u8 = out_cache.data[pos + i];
        shared_buffer.set(i, c);
        shared_buffer.set(second + i, o);
        i += 1;
    }
    let ghost loaded = shared_buffer@;
    let ghost old_bytes = out_cache.data@.subrange(pos as int, pos + decode_step);
    let ghost sum = add_bytes(code@, old_bytes);
    proof {
        lemma_serial_add_disjoint(loaded, 0, second as int, decode_step as int);
        let done = serial_add(loaded, 0, second as int, decode_step as int);
        assert(done =~= overwrite(overwrite(mid.buf, second as int, old_bytes), 0, sum));
        assert(done.subrange(0, 0 + decode_step) =~= sum);
    }
    tbytes_set_rle_vector_software(
        rle_loader,
        out_cache,
        copy_length,
        decode_step,
        shared_buffer,
        0,
        second,
    )
}

/// What decoding a stretch comes to.
pub ghost struct RleOut {
    pub bytes: Seq<u8>,
    pub clip: RleRefClip,
    pub ctrl: StreamView,
    pub code: StreamView,
}

/// `r` with `head` in front of its bytes.
pub open spec fn prefixed(head: Seq<u8>, r: Result<RleOut, HDiffError>) -> Result<
    RleOut,
    HDiffError,
> {
    match r {
        Ok(o) => Ok(RleOut { bytes: head + o.bytes, ..o }),
        Err(e) => Err(e),
    }
}

/// The next run in the control stream: its type in the top two bits of the
/// first byte, then its length less one. Type 0 adds nothing, type 1 adds 255,
/// type 2 adds one value from the code stream, and type 3 adds as many values
/// from the code stream as it is long.
pub open spec fn next_run(ctrl: StreamView, code: StreamView) -> Result<
    (RleRefClip, StreamView, StreamView),
    HDiffError,
> {
    if ctrl.left() <= 0 {
        Err(ctrl.end_error())
    } else {
        let sign = ctrl.data[ctrl.pos];
        let kind = sign / 64;
        let (len, rest) = ctrl.at(ctrl.pos + 1).long_7bit(K_BYTE_RLE_TYPE, sign);
        match len {
            Err(e) => Err(e),
            Ok(v) => if v == i64::MAX {
                Err(HDiffError::RleLengthOverflow)
            } else if kind == 3 {
                Ok((RleRefClip { mem_copy_length: (v + 1) as i64, ..empty_clip() }, rest, code))
            } else if kind == 2 {
                if code.left() <= 0 {
                    Err(code.end_error())
                } else {
                    Ok(
                        (
                            RleRefClip {
                                mem_copy_length: 0,
                                mem_set_length: (v + 1) as i64,
                                mem_set_value: code.data[code.pos],
                            },
                            rest,
                            code.at(code.pos + 1),
                        ),
                    )
                }
            } else {
                Ok(
                    (
                        RleRefClip {
                            mem_copy_length: 0,
                            mem_set_length: (v + 1) as i64,
                            mem_set_value: if kind == 0 {
                                0u8
                            } else {
                                255u8
                            },
                        },
                        rest,
                        code,
                    ),
                )
            },
        }
    }
}

/// `clip` with `n` bytes taken off the run of one value.
pub open spec fn less_set(clip: RleRefClip, n: int) -> RleRefClip {
    RleRefClip { mem_set_length: (clip.mem_set_length - n) as i64, ..clip }
}

/// `clip` with `n` bytes taken off the run of code values.
pub open spec fn less_copy(clip: RleRefClip, n: int) -> RleRefClip {
    RleRefClip { mem_copy_length: (clip.mem_copy_length - n) as i64, ..clip }
}

/// Adds the runs, from `clip` on, to the stretch `base`. A run may end in the
/// middle of a stretch or reach into the next.
pub open spec fn rle_run(
    clip: RleRefClip,
    ctrl: StreamView,
    code: StreamView,
    base: Seq<u8>,
) -> Result<RleOut, HDiffError>
    decreases base.len(), (if clip.mem_set_length > 0 || clip.mem_copy_length > 0 { 0int } else { 1int }),
{
    if base.len() == 0 {
        Ok(RleOut { bytes: Seq::empty(), clip, ctrl, code })
    } else if clip.mem_set_length > 0 {
        let n = min(clip.mem_set_length as int, base.len() as int);
        prefixed(
            add_value(base.take(n), clip.mem_set_value),
            rle_run(less_set(clip, n), ctrl, code, base.skip(n)),
        )
    } else if clip.mem_copy_length > 0 {
        let n = min(clip.mem_copy_length as int, base.len() as int);
        if code.left() < n {
            Err(code.end_error())
        } else {
            prefixed(
                add_bytes(code.next_bytes(n), base.take(n)),
                rle_run(less_copy(clip, n), ctrl, code.at(code.pos + n), base.skip(n)),
            )
        }
    } else {
        match next_run(ctrl, code) {
            Err(e) => Err(e),
            Ok((run, ctrl2, code2)) => if run.mem_set_length > 0 || run.mem_copy_length > 0 {
                rle_run(run, ctrl2, code2, base)
            } else {
                Err(HDiffError::RleLengthOverflow)
            },
        }
    }
}

/// The current runs are not negative, and at most one is under way.
pub open spec fn clip_wf(clip: RleRefClip) -> bool {
    &&& clip.mem_set_length >= 0
    &&& clip.mem_copy_length >= 0
    &&& clip.mem_set_length == 0 || clip.mem_copy_length == 0
}

/// Adding the runs, from `clip` on, to `n` bytes comes to a run of code values.
pub open spec fn takes_codes(clip: RleRefClip, ctrl: StreamView, code: StreamView, n: int) -> bool
    decreases n, (if clip.mem_set_length > 0 || clip.mem_copy_length > 0 { 0int } else { 1int }),
{
    if n <= 0 {
        false
    } else if clip.mem_set_length > 0 {
        let k = min(clip.mem_set_length as int, n);
        takes_codes(less_set(clip, k), ctrl, code, n - k)
    } else if clip.mem_copy_length > 0 {
        true
    } else {
        match next_run(ctrl, code) {
            Err(_) => false,
            Ok((run, ctrl2, code2)) => if run.mem_set_length > 0 || run.mem_copy_length > 0 {
                takes_codes(run, ctrl2, code2, n)
            } else {
                false
            },
        }
    }
}

/// A buffer of `len` bytes is enough to add the runs to `n` bytes: a run of one
/// value needs any buffer, a run of code values one that holds the values and the
/// bytes that they are added to.
pub open spec fn buffer_fits(
    len: int,
    clip: RleRefClip,
    ctrl: StreamView,
    code: StreamView,
    n: int,
) -> bool {
    &&& n > 0 ==> len > 0
    &&& takes_codes(clip, ctrl, code, n) ==> len >= MAX_ARRAY_POOL_SECOND_OFFSET + min(
        n,
        MAX_ARRAY_POOL_SECOND_OFFSET as int,
    )
}

proof fn lemma_takes_codes_behind(clip: RleRefClip, ctrl: StreamView, code: StreamView, n: int, k: int)
    requires
        clip_wf(clip),
        0 <= k <= clip.mem_set_length,
        k <= n,
    ensures
        takes_codes(clip, ctrl, code, n) == takes_codes(less_set(clip, k), ctrl, code, n - k),
{
    assert(less_set(clip, 0) == clip);
    if k > 0 {
        let m = min(clip.mem_set_length as int, n);
        if k < m {
            let c = less_set(clip, k);
            assert(less_set(c, m - k) == less_set(clip, m));
        }
    }
}

/// A run of one value may be taken in two parts.
pub proof fn lemma_split_set(
    clip: RleRefClip,
    ctrl: StreamView,
    code: StreamView,
    base: Seq<u8>,
    k: int,
)
    requires
        clip_wf(clip),
        0 <= k <= clip.mem_set_length,
        k <= base.len(),
    ensures
        rle_run(clip, ctrl, code, base) == prefixed(
            add_value(base.take(k), clip.mem_set_value),
            rle_run(less_set(clip, k), ctrl, code, base.skip(k)),
        ),
{
    let v = clip.mem_set_value;
    if k == 0 {
        assert(base.skip(0) =~= base);
        assert(less_set(clip, 0) == clip);
        let r = rle_run(clip, ctrl, code, base);
        if r is Ok {
            assert(add_value(base.take(0), v) + r->Ok_0.bytes =~= r->Ok_0.bytes);
        }
    } else {
        let n = min(clip.mem_set_length as int, base.len() as int);
        let rest = rle_run(less_set(clip, n), ctrl, code, base.skip(n));
        if k == n {
        } else {
            let c2 = less_set(clip, k);
            let b2 = base.skip(k);
            assert(b2.len() > 0);
            assert(c2.mem_set_length > 0);
            assert(min(c2.mem_set_length as int, b2.len() as int) == n - k);
            assert(less_set(c2, n - k) == less_set(clip, n));
            assert(b2.skip(n - k) =~= base.skip(n));
            assert(add_value(base.take(k), v) + add_value(b2.take(n - k), v) =~= add_value(
                base.take(n),
                v,
            ));
            if rest is Ok {
                assert(add_value(base.take(k), v) + (add_value(b2.take(n - k), v)
                    + rest->Ok_0.bytes) =~= add_value(base.take(n), v) + rest->Ok_0.bytes);
            }
        }
    }
}

/// A run of code values may be taken in two parts.
pub proof fn lemma_split_copy(
    clip: RleRefClip,
    ctrl: StreamView,
    code: StreamView,
    base: Seq<u8>,
    k: int,
)
    requires
        clip_wf(clip),
        clip.mem_set_length == 0,
        code.wf(),
        0 <= k <= clip.mem_copy_length,
        k <= base.len(),
    ensures
        code.left() < k ==> rle_run(clip, ctrl, code, base) == Err::<RleOut, HDiffError>(
            code.end_error(),
        ),
        code.left() >= k ==> rle_run(clip, ctrl, code, base) == prefixed(
            add_bytes(code.next_bytes(k), base.take(k)),
            rle_run(less_copy(clip, k), ctrl, code.at(code.pos + k), base.skip(k)),
        ),
{
    if k == 0 {
        assert(base.skip(0) =~= base);
        assert(less_copy(clip, 0) == clip);
        assert(code.at(code.pos) == code);
        let r = rle_run(clip, ctrl, code, base);
        if r is Ok {
            assert(add_bytes(code.next_bytes(0), base.take(0)) + r->Ok_0.bytes
                =~= r->Ok_0.bytes);
        }
    } else if code.left() >= k {
        let n = min(clip.mem_copy_length as int, base.len() as int);
        if k < n {
            let c2 = less_copy(clip, k);
            let b2 = base.skip(k);
            let code2 = code.at(code.pos + k);
            assert(b2.len() > 0);
            assert(min(c2.mem_copy_length as int, b2.len() as int) == n - k);
            assert(less_copy(c2, n - k) == less_copy(clip, n));
            assert(b2.skip(n - k) =~= base.skip(n));
            if code.left() >= n {
                let rest = rle_run(
                    less_copy(clip, n),
                    ctrl,
                    code.at(code.pos + n),
                    base.skip(n),
                );
                assert(code2.at(code2.pos + (n - k)) == code.at(code.pos + n));
                let head = add_bytes(code.next_bytes(k), base.take(k));
                let mid = add_bytes(code2.next_bytes(n - k), b2.take(n - k));
                assert(head + mid =~= add_bytes(code.next_bytes(n), base.take(n)));
                if rest is Ok {
                    assert(head + (mid + rest->Ok_0.bytes) =~= (head + mid) + rest->Ok_0.bytes);
                }
            }
        }
    }
}

/// Prefixing twice is prefixing with the two heads in a row.
pub proof fn lemma_prefixed_twice(a: Seq<u8>, b: Seq<u8>, r: Result<RleOut, HDiffError>)
    ensures
        prefixed(a, prefixed(b, r)) == prefixed(a + b, r),
{
    if r is Ok {
        assert(a + (b + r->Ok_0.bytes) =~= (a + b) + r->Ok_0.bytes);
    }
}

/// What adding the runs to the bytes of a cache comes to.
pub ghost struct CacheOut {
    pub data: Seq<u8>,
    pub clip: RleRefClip,
    pub ctrl: StreamView,
    pub code: StreamView,
}

/// Why a run of `m` code values cannot be added, where `room` bytes are left in the
/// cache: the values are taken in steps, and in each step before the bytes that
/// they are added to.
pub open spec fn copy_fault(code: StreamView, room: int, m: int) -> HDiffError
    decreases m,
{
    let k = min(m, MAX_ARRAY_POOL_SECOND_OFFSET as int);
    if code.left() < k {
        code.end_error()
    } else if room < k || k <= 0 {
        HDiffError::UnexpectedEof
    } else {
        copy_fault(code.at(code.pos + k), room - k, m - k)
    }
}

/// Adds the runs, from `clip` on, to the `n` bytes at `pos` in the cache `data`.
/// Bytes that the cache does not hold cannot be changed: a run of zeros passes
/// them, any other is an error.
pub open spec fn cache_run(
    clip: RleRefClip,
    ctrl: StreamView,
    code: StreamView,
    data: Seq<u8>,
    pos: int,
    n: int,
) -> Result<CacheOut, HDiffError>
    decreases n, (if clip.mem_set_length > 0 || clip.mem_copy_length > 0 { 0int } else { 1int }),
{
    if n <= 0 {
        Ok(CacheOut { data, clip, ctrl, code })
    } else if clip.mem_set_length > 0 {
        let k = min(clip.mem_set_length as int, n);
        if clip.mem_set_value == 0 {
            cache_run(less_set(clip, k), ctrl, code, data, pos + k, n - k)
        } else if pos + k > data.len() {
            Err(HDiffError::UnexpectedEof)
        } else {
            let sum = add_value(data.subrange(pos, pos + k), clip.mem_set_value);
            cache_run(less_set(clip, k), ctrl, code, overwrite(data, pos, sum), pos + k, n - k)
        }
    } else if clip.mem_copy_length > 0 {
        let k = min(clip.mem_copy_length as int, n);
        if code.left() >= k && pos + k <= data.len() {
            let sum = add_bytes(code.next_bytes(k), data.subrange(pos, pos + k));
            cache_run(
                less_copy(clip, k),
                ctrl,
                code.at(code.pos + k),
                overwrite(data, pos, sum),
                pos + k,
                n - k,
            )
        } else {
            Err(copy_fault(code, data.len() - pos, k))
        }
    } else {
        match next_run(ctrl, code) {
            Err(e) => Err(e),
            Ok((run, ctrl2, code2)) => if run.mem_set_length > 0 || run.mem_copy_length > 0 {
                cache_run(run, ctrl2, code2, data, pos, n)
            } else {
                Err(HDiffError::RleLengthOverflow)
            },
        }
    }
}

/// The result of the whole stretch, seen from the middle of its decoding.
pub open spec fn from_middle(s: CacheState, ctrl: StreamView, code: StreamView) -> Result<
    CacheOut,
    HDiffError,
> {
    cache_run(s.clip, ctrl, code, s.data, s.pos, s.left)
}

/// One step of a run under way brings the decoding of a stretch further and
/// leaves its result as it is.
proof fn lemma_drain_step(s: CacheState, ctrl: StreamView, code: StreamView)
    requires
        clip_wf(s.clip),
        0 <= s.pos,
        s.left > 0,
        s.clip.mem_set_length > 0 || s.clip.mem_copy_length > 0,
        code.wf(),
        buffer_fits(s.buf.len() as int, s.clip, ctrl, code, s.left),
    ensures
        s.holds_codes(),
        match rle_step(s, code) {
            Ok((t, code2)) => {
                &&& clip_wf(t.clip)
                &&& t.pos + t.left == s.pos + s.left
                &&& 0 <= t.left < s.left
                &&& t.data.len() == s.data.len()
                &&& t.buf.len() == s.buf.len()
                &&& code2.wf()
                &&& buffer_fits(t.buf.len() as int, t.clip, ctrl, code2, t.left)
                &&& from_middle(t, ctrl, code2) == from_middle(s, ctrl, code)
            },
            Err(e) => from_middle(s, ctrl, code) == Err::<CacheOut, HDiffError>(e),
        },
{
    if s.clip.mem_set_length > 0 {
        lemma_drain_set(s, ctrl, code);
    } else {
        lemma_drain_copy(s, ctrl, code);
    }
}

proof fn lemma_drain_set(s: CacheState, ctrl: StreamView, code: StreamView)
    requires
        clip_wf(s.clip),
        0 <= s.pos,
        s.left > 0,
        s.clip.mem_set_length > 0,
        code.wf(),
        buffer_fits(s.buf.len() as int, s.clip, ctrl, code, s.left),
    ensures
        match rle_step(s, code) {
            Ok((t, code2)) => {
                &&& clip_wf(t.clip)
                &&& t.pos + t.left == s.pos + s.left
                &&& 0 <= t.left < s.left
                &&& t.data.len() == s.data.len()
                &&& t.buf.len() == s.buf.len()
                &&& code2.wf()
                &&& buffer_fits(t.buf.len() as int, t.clip, ctrl, code2, t.left)
                &&& from_middle(t, ctrl, code2) == from_middle(s, ctrl, code)
            },
            Err(e) => from_middle(s, ctrl, code) == Err::<CacheOut, HDiffError>(e),
        },
{
    let k = s.set_step();
    let m = min(s.clip.mem_set_length as int, s.left);
    let v = s.clip.mem_set_value;
    lemma_takes_codes_behind(s.clip, ctrl, code, s.left, k);
    if s.after_set() is Some {
        let t = s.after_set()->Some_0;
        assert(t.clip == less_set(s.clip, k));
        if k < m {
            assert(less_set(t.clip, m - k) == less_set(s.clip, m));
            if v != 0 && s.pos + m <= s.data.len() {
                let whole = add_value(s.data.subrange(s.pos, s.pos + m), v);
                let rest = add_value(t.data.subrange(t.pos, t.pos + (m - k)), v);
                assert(overwrite(t.data, t.pos, rest) =~= overwrite(s.data, s.pos, whole));
            }
        }
    }
}

proof fn lemma_drain_copy(s: CacheState, ctrl: StreamView, code: StreamView)
    requires
        clip_wf(s.clip),
        0 <= s.pos,
        s.left > 0,
        s.clip.mem_set_length == 0,
        s.clip.mem_copy_length > 0,
        code.wf(),
        buffer_fits(s.buf.len() as int, s.clip, ctrl, code, s.left),
    ensures
        s.holds_codes(),
        match rle_step(s, code) {
            Ok((t, code2)) => {
                &&& clip_wf(t.clip)
                &&& t.pos + t.left == s.pos + s.left
                &&& 0 <= t.left < s.left
                &&& t.data.len() == s.data.len()
                &&& t.buf.len() == s.buf.len()
                &&& code2.wf()
                &&& buffer_fits(t.buf.len() as int, t.clip, ctrl, code2, t.left)
                &&& from_middle(t, ctrl, code2) == from_middle(s, ctrl, code)
            },
            Err(e) => from_middle(s, ctrl, code) == Err::<CacheOut, HDiffError>(e),
        },
{
    assert(s.set_step() == 0);
    let u = s.after_set()->Some_0;
    assert(u.clip == s.clip);
    assert(u == s);
    let k = s.copy_step();
    let m = min(s.clip.mem_copy_length as int, s.left);
    if code.left() >= k && s.pos + k <= s.data.len() {
        let t = s.after_copy(code.next_bytes(k));
        let code2 = code.at(code.pos + k);
        assert(t.clip == less_copy(s.clip, k));
        if k < m {
            assert(less_copy(t.clip, m - k) == less_copy(s.clip, m));
            if code.left() >= m && s.pos + m <= s.data.len() {
                let whole = add_bytes(code.next_bytes(m), s.data.subrange(s.pos, s.pos + m));
                let rest = add_bytes(
                    code2.next_bytes(m - k),
                    t.data.subrange(t.pos, t.pos + (m - k)),
                );
                assert(overwrite(t.data, t.pos, rest) =~= overwrite(s.data, s.pos, whole));
                assert(code2.at(code2.pos + (m - k)) == code.at(code.pos + m));
            }
        }
    }
}

/// Adding the runs to a stretch in the cache replaces its bytes by those with the
/// runs added.
pub open spec fn replaces_stretch(
    clip: RleRefClip,
    ctrl: StreamView,
    code: StreamView,
    data: Seq<u8>,
    pos: int,
    n: int,
) -> bool {
    match rle_run(clip, ctrl, code, data.subrange(pos, pos + n)) {
        Ok(o) => {
            &&& o.bytes.len() == n
            &&& clip_wf(o.clip)
            &&& cache_run(clip, ctrl, code, data, pos, n) == Ok::<CacheOut, HDiffError>(
                CacheOut {
                    data: overwrite(data, pos, o.bytes),
                    clip: o.clip,
                    ctrl: o.ctrl,
                    code: o.code,
                },
            )
        },
        Err(e) => cache_run(clip, ctrl, code, data, pos, n) == Err::<CacheOut, HDiffError>(e),
    }
}

proof fn lemma_replace_set(
    clip: RleRefClip,
    ctrl: StreamView,
    code: StreamView,
    data: Seq<u8>,
    pos: int,
    n: int,
)
    requires
        clip_wf(clip),
        clip.mem_set_length > 0,
        0 <= pos,
        0 < n,
        pos + n <= data.len(),
        ({
            let k = min(clip.mem_set_length as int, n);
            let sum = add_value(data.subrange(pos, pos + k), clip.mem_set_value);
            replaces_stretch(
                less_set(clip, k),
                ctrl,
                code,
                overwrite(data, pos, sum),
                pos + k,
                n - k,
            )
        }),
    ensures
        replaces_stretch(clip, ctrl, code, data, pos, n),
{
    let base = data.subrange(pos, pos + n);
    let k = min(clip.mem_set_length as int, n);
    let v = clip.mem_set_value;
    assert(base.take(k) =~= data.subrange(pos, pos + k));
    let head = add_value(base.take(k), v);
    let data2 = overwrite(data, pos, head);
    if v == 0 {
        assert(data2 =~= data);
    }
    assert(data2.subrange(pos + k, pos + k + (n - k)) =~= base.skip(k));
    let r = rle_run(less_set(clip, k), ctrl, code, base.skip(k));
    if r is Ok {
        let bytes = r->Ok_0.bytes;
        assert(overwrite(data2, pos + k, bytes) =~= overwrite(data, pos, head + bytes));
    }
}

proof fn lemma_replace_copy(
    clip: RleRefClip,
    ctrl: StreamView,
    code: StreamView,
    data: Seq<u8>,
    pos: int,
    n: int,
)
    requires
        clip_wf(clip),
        clip.mem_set_length == 0,
        clip.mem_copy_length > 0,
        code.wf(),
        0 <= pos,
        0 < n,
        pos + n <= data.len(),
        ({
            let k = min(clip.mem_copy_length as int, n);
            let sum = add_bytes(code.next_bytes(k), data.subrange(pos, pos + k));
            code.left() >= k ==> replaces_stretch(
                less_copy(clip, k),
                ctrl,
                code.at(code.pos + k),
                overwrite(data, pos, sum),
                pos + k,
                n - k,
            )
        }),
    ensures
        replaces_stretch(clip, ctrl, code, data, pos, n),
{
    let base = data.subrange(pos, pos + n);
    let k = min(clip.mem_copy_length as int, n);
    assert(base.take(k) =~= data.subrange(pos, pos + k));
    if code.left() >= k {
        let head = add_bytes(code.next_bytes(k), base.take(k));
        let data2 = overwrite(data, pos, head);
        let code2 = code.at(code.pos + k);
        assert(data2.subrange(pos + k, pos + k + (n - k)) =~= base.skip(k));
        let r = rle_run(less_copy(clip, k), ctrl, code2, base.skip(k));
        if r is Ok {
            let bytes = r->Ok_0.bytes;
            assert(overwrite(data2, pos + k, bytes) =~= overwrite(data, pos, head + bytes));
        }
    } else {
        lemma_codes_run_out(code, data.len() - pos, k);
    }
}

/// Where the cache holds the whole stretch, adding the runs to it replaces its
/// bytes by those with the runs added.
pub proof fn lemma_stretch_in_cache(
    clip: RleRefClip,
    ctrl: StreamView,
    code: StreamView,
    data: Seq<u8>,
    pos: int,
    n: int,
)
    requires
        clip_wf(clip),
        ctrl.wf(),
        code.wf(),
        0 <= pos,
        0 <= n,
        pos + n <= data.len(),
    ensures
        replaces_stretch(clip, ctrl, code, data, pos, n),
    decreases n, (if clip.mem_set_length > 0 || clip.mem_copy_length > 0 { 0int } else { 1int }),
{
    if n == 0 {
        assert(overwrite(data, pos, Seq::<u8>::empty()) =~= data);
        assert(data.subrange(pos, pos + n).len() == 0);
    } else if clip.mem_set_length > 0 {
        let k = min(clip.mem_set_length as int, n);
        let sum = add_value(data.subrange(pos, pos + k), clip.mem_set_value);
        let data2 = overwrite(data, pos, sum);
        lemma_stretch_in_cache(less_set(clip, k), ctrl, code, data2, pos + k, n - k);
        lemma_replace_set(clip, ctrl, code, data, pos, n);
    } else if clip.mem_copy_length > 0 {
        let k = min(clip.mem_copy_length as int, n);
        if code.left() >= k {
            let sum = add_bytes(code.next_bytes(k), data.subrange(pos, pos + k));
            let data2 = overwrite(data, pos, sum);
            let code2 = code.at(code.pos + k);
            lemma_stretch_in_cache(less_copy(clip, k), ctrl, code2, data2, pos + k, n - k);
        }
        lemma_replace_copy(clip, ctrl, code, data, pos, n);
    } else if next_run(ctrl, code) is Ok {
        let (run, ctrl2, code2) = next_run(ctrl, code)->Ok_0;
        lemma_next_run(ctrl, code);
        lemma_stretch_in_cache(run, ctrl2, code2, data, pos, n);
    }
}

/// Where the cache has room for all code values, only their end is an error.
proof fn lemma_codes_run_out(code: StreamView, room: int, m: int)
    requires
        code.wf(),
        code.left() < m <= room,
    ensures
        copy_fault(code, room, m) == code.end_error(),
    decreases m,
{
    let k = min(m, MAX_ARRAY_POOL_SECOND_OFFSET as int);
    if code.left() >= k {
        lemma_codes_run_out(code.at(code.pos + k), room - k, m - k);
    }
}

/// A run that is read is under way, and leaves well-formed streams.
pub proof fn lemma_next_run(ctrl: StreamView, code: StreamView)
    requires
        ctrl.wf(),
        code.wf(),
        next_run(ctrl, code) is Ok,
    ensures
        ({
            let (run, ctrl2, code2) = next_run(ctrl, code)->Ok_0;
            &&& clip_wf(run)
            &&& run.mem_set_length > 0 || run.mem_copy_length > 0
            &&& ctrl2.wf()
            &&& code2.wf()
        }),
{
    let sign = ctrl.data[ctrl.pos];
    super::parser::lemma_varint_at_bounds(
        ctrl.data,
        ctrl.pos + 1,
        K_BYTE_RLE_TYPE,
        sign,
        super::parser::LONG_CAP as int,
    );
}

/// Reads the next run out of the control stream.
fn read_run(ctrl: &mut ByteStream, code: &mut ByteStream) -> (r: Result<RleRefClip, HDiffError>)
    requires
        old(ctrl).wf(),
        old(code).wf(),
    ensures
        final(ctrl).wf(),
        final(code).wf(),
        match next_run(old(ctrl)@, old(code)@) {
            Ok((run, ctrl2, code2)) => r == Ok::<RleRefClip, HDiffError>(run) && final(ctrl)@
                == ctrl2 && final(code)@ == code2 && clip_wf(run) && (run.mem_set_length > 0
                || run.mem_copy_length > 0),
            Err(e) => r == Err::<RleRefClip, HDiffError>(e),
        },
{
    let sign: u8 = ctrl.read_byte()?;
    let kind: u8 = sign / 64;
    let raw: i64 = ctrl.read_long_7bit_tagged(K_BYTE_RLE_TYPE, sign)?;
    if raw == i64::MAX {
        return Err(HDiffError::RleLengthOverflow);
    }
    let length: i64 = raw + 1;
    if kind == 3 {
        return Ok(RleRefClip { mem_copy_length: length, mem_set_length: 0, mem_set_value: 0 });
    }
    if kind == 2 {
        let value: u8 = code.read_byte()?;
        return Ok(
            RleRefClip { mem_copy_length: 0, mem_set_length: length, mem_set_value: value },
        );
    }
    let value: u8 = 0u8.wrapping_sub(kind);
    Ok(RleRefClip { mem_copy_length: 0, mem_set_length: length, mem_set_value: value })
}

/// Adds the runs to the `copy_length` bytes at the cache's position. A run that
/// is longer than the buffer is drained in several steps before the next one is
/// read.
pub fn tbytes_determine_rle_type(
    rle_loader: &mut RleRefClip,
    out_cache: &mut ByteCursor,
    copy_length: i64,
    shared_buffer: &mut Vec<u8>,
    rle_ctrl_stream: &mut ByteStream,
    rle_code_stream: &mut ByteStream,
) -> (r: Result<(), HDiffError>)
    requires
        clip_wf(*old(rle_loader)),
        copy_length >= 0,
        old(out_cache).pos + copy_length <= usize::MAX,
        old(rle_ctrl_stream).wf(),
        old(rle_code_stream).wf(),
        buffer_fits(
            old(shared_buffer)@.len() as int,
            *old(rle_loader),
            old(rle_ctrl_stream)@,
            old(rle_code_stream)@,
            copy_length as int,
        ),
    ensures
        match cache_run(
            *old(rle_loader),
            old(rle_ctrl_stream)@,
            old(rle_code_stream)@,
            old(out_cache).data@,
            old(out_cache).pos as int,
            copy_length as int,
        ) {
            Ok(o) => {
                &&& r is Ok
                &&& final(shared_buffer)@.len() == old(shared_buffer)@.len()
                &&& *final(rle_loader) == o.clip
                &&& clip_wf(o.clip)
                &&& final(rle_ctrl_stream)@ == o.ctrl
                &&& final(rle_ctrl_stream).wf()
                &&& final(rle_code_stream)@ == o.code
                &&& final(rle_code_stream).wf()
                &&& final(out_cache).pos == old(out_cache).pos + copy_length
                &&& final(out_cache).data@ == o.data
            },
            Err(e) => r == Err::<(), HDiffError>(e),
        },
{
    let ghost start = out_cache.pos as int;
    let ghost whole = cache_run(
        *rle_loader,
        rle_ctrl_stream@,
        rle_code_stream@,
        out_cache.data@,
        start,
        copy_length as int,
    );
    let mut left: i64 = copy_length;
    loop
        invariant
            start == old(out_cache).pos,
            0 <= left,
            out_cache.pos + left == start + copy_length,
            start + copy_length <= usize::MAX,
            clip_wf(*rle_loader),
            shared_buffer@.len() == old(shared_buffer)@.len(),
            buffer_fits(
                shared_buffer@.len() as int,
                *rle_loader,
                rle_ctrl_stream@,
                rle_code_stream@,
                left as int,
            ),
            rle_ctrl_stream.wf(),
            rle_code_stream.wf(),
            whole == cache_run(
                *old(rle_loader),
                old(rle_ctrl_stream)@,
                old(rle_code_stream)@,
                old(out_cache).data@,
                start,
                copy_length as int,
            ),
            whole == from_middle(
                cache_state(*rle_loader, *out_cache, left, *shared_buffer),
                rle_ctrl_stream@,
                rle_code_stream@,
            ),
        decreases left, (if rle_loader.mem_set_length > 0 || rle_loader.mem_copy_length > 0 { 0int } else { 1int }),
    {
        if left == 0 {
            return Ok(());
        }
        if rle_loader.mem_set_length == 0 && rle_loader.mem_copy_length == 0 {
            let run: RleRefClip = read_run(rle_ctrl_stream, rle_code_stream)?;
            *rle_loader = run;
            continue;
        }
        proof {
            lemma_drain_step(
                cache_state(*rle_loader, *out_cache, left, *shared_buffer),
                rle_ctrl_stream@,
                rle_code_stream@,
            );
        }
        tbytes_set_rle(rle_loader, out_cache, &mut left, shared_buffer, rle_code_stream)?;
    }
}

/// The state of a sectioned patch between two stretches: the output so far, how
/// much of it was handed on, the totals reported, the current runs, the streams,
/// and the end of the last cover in the new data.
pub ghost struct PatchState {
    pub out: Seq<u8>,
    pub flushed: int,
    pub progress: Seq<u64>,
    pub clip: RleRefClip,
    pub ctrl: StreamView,
    pub code: StreamView,
    pub diff: StreamView,
    pub new_pos_back: int,
}

impl PatchState {
    /// Adds the stretch `base` to the output, with the runs added to it.
    pub open spec fn add_stretch(self, base: Seq<u8>) -> Result<PatchState, HDiffError> {
        match rle_run(self.clip, self.ctrl, self.code, base) {
            Err(e) => Err(e),
            Ok(o) => Ok(
                PatchState {
                    out: self.out + o.bytes,
                    clip: o.clip,
                    ctrl: o.ctrl,
                    code: o.code,
                    ..self
                },
            ),
        }
    }

    /// Adds `n` literal bytes to the output, with the runs added to them.
    pub open spec fn add_literal(self, n: int) -> Result<PatchState, HDiffError> {
        if n < 0 {
            Err(HDiffError::CopyLengthNegative)
        } else if self.diff.left() < n {
            Err(self.diff.end_error())
        } else {
            PatchState { diff: self.diff.at(self.diff.pos + n), ..self }.add_stretch(
                self.diff.next_bytes(n),
            )
        }
    }

    /// Adds `n` bytes of the old data from `pos`, with the runs added to them.
    pub open spec fn add_old(self, old: Seq<u8>, pos: int, n: int) -> Result<
        PatchState,
        HDiffError,
    > {
        if n < 0 {
            Err(HDiffError::AddLengthNegative)
        } else if n > 0 && (pos < 0 || pos + n > old.len()) {
            Err(HDiffError::UnexpectedEof)
        } else if n == 0 {
            self.add_stretch(Seq::empty())
        } else {
            self.add_stretch(old.subrange(pos, pos + n))
        }
    }

    /// Hands on what is pending, when it is much or when it must be.
    pub open spec fn hand_on(self, must: bool) -> PatchState {
        if must || self.out.len() - self.flushed > MAX_MEM_BUFFER_LIMIT {
            PatchState {
                flushed: self.out.len() as int,
                progress: self.progress.push(self.out.len() as u64),
                ..self
            }
        } else {
            self
        }
    }

    /// Applies one cover, with the literal bytes before it.
    pub open spec fn apply_cover(
        self,
        old: Seq<u8>,
        cover: CoverHeader,
        new_data_size: int,
    ) -> Result<PatchState, HDiffError> {
        let end = cover.new_pos + cover.cover_length;
        if cover.new_pos < self.new_pos_back {
            Err(HDiffError::BackwardCovers)
        } else if end > i64::MAX {
            Err(HDiffError::CoverLengthOverflow)
        } else if end > new_data_size {
            Err(HDiffError::CoverPastEnd)
        } else {
            let gap = if self.new_pos_back < cover.new_pos {
                self.add_literal(cover.new_pos - self.new_pos_back)
            } else {
                Ok(self)
            };
            match gap {
                Err(e) => Err(e),
                Ok(s) => match s.add_old(old, cover.old_pos as int, cover.cover_length as int) {
                    Err(e) => Err(e),
                    Ok(t) => Ok(
                        PatchState { new_pos_back: end, ..t }.hand_on(cover.next_cover_index == 0),
                    ),
                },
            }
        }
    }

    /// Applies the covers from the `i`-th on, then the literal bytes behind the
    /// last one.
    pub open spec fn apply_covers(
        self,
        old: Seq<u8>,
        covers: Seq<CoverHeader>,
        i: int,
        new_data_size: int,
    ) -> Result<PatchState, HDiffError>
        decreases covers.len() - i,
    {
        if i < 0 || i >= covers.len() {
            if self.new_pos_back < new_data_size {
                match self.add_literal(new_data_size - self.new_pos_back) {
                    Err(e) => Err(e),
                    Ok(s) => Ok(s.hand_on(true)),
                }
            } else {
                Ok(self)
            }
        } else {
            match self.apply_cover(old, covers[i], new_data_size) {
                Err(e) => Err(e),
                Ok(s) => s.apply_covers(old, covers, i + 1, new_data_size),
            }
        }
    }
}

/// The four streams of a sectioned patch.
pub struct PatchClips {
    pub cover: ByteStream,
    pub rle_ctrl: ByteStream,
    pub rle_code: ByteStream,
    pub new_data_diff: ByteStream,
}

impl PatchClips {
    pub open spec fn wf(&self) -> bool {
        &&& self.cover.wf()
        &&& self.rle_ctrl.wf()
        &&& self.rle_code.wf()
        &&& self.new_data_diff.wf()
    }
}

/// The new data, and the totals that were reported while it was made.
pub struct PatchOutput {
    pub data: Vec<u8>,
    pub progress: Vec<u64>,
}

/// The state before the first cover.
pub open spec fn first_patch_state(
    ctrl: StreamView,
    code: StreamView,
    diff: StreamView,
) -> PatchState {
    PatchState {
        out: Seq::empty(),
        flushed: 0,
        progress: Seq::empty(),
        clip: empty_clip(),
        ctrl,
        code,
        diff,
        new_pos_back: 0,
    }
}

/// What a sectioned patch makes of the old data.
pub open spec fn cover_stream_output(
    cover: StreamView,
    ctrl: StreamView,
    code: StreamView,
    diff: StreamView,
    old: Seq<u8>,
    header: HeaderInfo,
) -> Result<PatchState, HDiffError> {
    match cover_list(
        cover,
        header.chunk_info.cover_buf_size as int,
        header.chunk_info.cover_count as int,
    ) {
        Err(e) => Err(e),
        Ok(covers) => first_patch_state(ctrl, code, diff).apply_covers(
            old,
            covers,
            0,
            header.new_data_size as int,
        ),
    }
}

/// Writes the next `copy_length` bytes of `copy_reader` at the cache's position,
/// and leaves the position in front of them.
pub fn tbytes_copy_stream_from_old_clip(
    out_cache: &mut ByteCursor,
    copy_reader: &mut ByteStream,
    copy_length: i64,
) -> (r: Result<(), HDiffError>)
    requires
        old(out_cache).pos <= old(out_cache).data@.len(),
        old(out_cache).pos + copy_length <= usize::MAX,
        old(copy_reader).wf(),
    ensures
        final(copy_reader).wf(),
        copy_length < 0 ==> r == Err::<(), HDiffError>(HDiffError::CopyLengthNegative),
        0 <= copy_length && old(copy_reader)@.left() < copy_length ==> r == Err::<(), HDiffError>(
            old(copy_reader)@.end_error(),
        ),
        0 <= copy_length <= old(copy_reader)@.left() ==> {
            &&& r is Ok
            &&& final(out_cache).pos == old(out_cache).pos
            &&& final(out_cache).data@ == overwrite(
                old(out_cache).data@,
                old(out_cache).pos as int,
                old(copy_reader)@.next_bytes(copy_length as int),
            )
            &&& final(copy_reader)@ == old(copy_reader)@.at(old(copy_reader)@.pos + copy_length)
        },
{
    if copy_length < 0 {
        return Err(HDiffError::CopyLengthNegative);
    }
    let n: usize = copy_length as usize;
    let bytes: Vec<u8> = copy_reader.read_exact(n)?;
    let last_pos: usize = out_cache.pos;
    assert(bytes@.subrange(0, 0 + n) =~= bytes@);
    out_cache.write_range(&bytes, 0, n);
    out_cache.pos = last_pos;
    Ok(())
}

/// The decoder's mutable parts while covers are applied.
struct Patcher {
    cache: ByteCursor,
    flushed: usize,
    progress: Vec<u64>,
    clip: RleRefClip,
    ctrl: ByteStream,
    code: ByteStream,
    diff: ByteStream,
    shared_buffer: Vec<u8>,
    new_pos_back: i64,
}

impl Patcher {
    spec fn state(&self) -> PatchState {
        PatchState {
            out: self.cache.data@,
            flushed: self.flushed as int,
            progress: self.progress@,
            clip: self.clip,
            ctrl: self.ctrl@,
            code: self.code@,
            diff: self.diff@,
            new_pos_back: self.new_pos_back as int,
        }
    }

    spec fn wf(&self) -> bool {
        &&& self.cache.pos == self.cache.data@.len()
        &&& self.flushed <= self.cache.data@.len()
        &&& clip_wf(self.clip)
        &&& self.ctrl.wf()
        &&& self.code.wf()
        &&& self.diff.wf()
        &&& self.shared_buffer@.len() >= MAX_ARRAY_POOL_LEN
        &&& self.new_pos_back >= 0
    }

    /// Adds the runs to the bytes behind the cache's position.
    fn decode_stretch(&mut self, n: usize, Ghost(before): Ghost<PatchState>, Ghost(base): Ghost<
        Seq<u8>,
    >) -> (r: Result<(), HDiffError>)
        requires
            old(self).cache.data@ == before.out + base,
            old(self).cache.pos == before.out.len(),
            base.len() == n,
            n <= i64::MAX,
            before == (PatchState { out: before.out, ..old(self).state() }),
            old(self).flushed <= before.out.len(),
            clip_wf(old(self).clip),
            old(self).ctrl.wf(),
            old(self).code.wf(),
            old(self).diff.wf(),
            old(self).shared_buffer@.len() >= MAX_ARRAY_POOL_LEN,
            old(self).new_pos_back >= 0,
        ensures
            match before.add_stretch(base) {
                Ok(s) => r is Ok && final(self).wf() && final(self).state() == s
                    && final(self).cache.data@.len() == before.out.len() + n,
                Err(e) => r == Err::<(), HDiffError>(e),
            },
    {
        proof {
            assert(self.cache.data@.subrange(before.out.len() as int, before.out.len() + n)
                =~= base);
            lemma_stretch_in_cache(
                self.clip,
                self.ctrl@,
                self.code@,
                self.cache.data@,
                before.out.len() as int,
                n as int,
            );
        }
        let total: usize = self.cache.data.len();
        assert(self.cache.pos + n == total);
        tbytes_determine_rle_type(
            &mut self.clip,
            &mut self.cache,
            n as i64,
            &mut self.shared_buffer,
            &mut self.ctrl,
            &mut self.code,
        )?;
        proof {
            let o = rle_run(before.clip, before.ctrl, before.code, base)->Ok_0;
            assert(overwrite(before.out + base, before.out.len() as int, o.bytes) =~= before.out
                + o.bytes);
        }
        Ok(())
    }

    /// Adds `copy_length` literal bytes.
    fn add_literal(&mut self, copy_length: i64) -> (r: Result<(), HDiffError>)
        requires
            old(self).wf(),
            old(self).cache.data@.len() + copy_length <= usize::MAX,
        ensures
            match old(self).state().add_literal(copy_length as int) {
                Ok(s) => r is Ok && final(self).wf() && final(self).state() == s
                    && final(self).cache.data@.len() == old(self).cache.data@.len() + copy_length,
                Err(e) => r == Err::<(), HDiffError>(e),
            },
    {
        let ghost before = self.state();
        tbytes_copy_stream_from_old_clip(&mut self.cache, &mut self.diff, copy_length)?;
        proof {
            let base = before.diff.next_bytes(copy_length as int);
            assert(overwrite(before.out, before.out.len() as int, base) =~= before.out + base);
        }
        let ghost mid = PatchState { diff: self.diff@, ..before };
        self.decode_stretch(
            copy_length as usize,
            Ghost(mid),
            Ghost(before.diff.next_bytes(copy_length as int)),
        )
    }

    /// Adds a stretch of the old data.
    fn add_old(&mut self, old_data: &Vec<u8>, old_pos: i64, add_length: i64) -> (r: Result<
        (),
        HDiffError,
    >)
        requires
            old(self).wf(),
            old(self).cache.data@.len() + add_length <= usize::MAX,
        ensures
            match old(self).state().add_old(old_data@, old_pos as int, add_length as int) {
                Ok(s) => r is Ok && final(self).wf() && final(self).state() == s
                    && final(self).cache.data@.len() == old(self).cache.data@.len() + add_length,
                Err(e) => r == Err::<(), HDiffError>(e),
            },
    {
        if add_length < 0 {
            return Err(HDiffError::AddLengthNegative);
        }
        let ghost before = self.state();
        let total: usize = old_data.len();
        if add_length > 0 && (old_pos < 0 || old_pos as u64 > total as u64 || (add_length as u64)
            > (total as u64) - (old_pos as u64)) {
            return Err(HDiffError::UnexpectedEof);
        }
        let n: usize = add_length as usize;
        let from: usize = if n > 0 {
            old_pos as usize
        } else {
            0
        };
        let at: usize = self.cache.pos;
        self.cache.write_range(old_data, from, n);
        self.cache.pos = at;
        let ghost base = old_data@.subrange(from as int, from + n);
        proof {
            assert(overwrite(before.out, before.out.len() as int, base) =~= before.out + base);
            if n == 0 {
                assert(base =~= Seq::<u8>::empty());
            }
        }
        self.decode_stretch(n, Ghost(before), Ghost(base))
    }

    /// Hands on what is pending, when it is much or when it must be.
    fn hand_on(&mut self, must: bool)
        requires
            old(self).wf(),
        ensures
            final(self).wf(),
            final(self).state() == old(self).state().hand_on(must),
            final(self).cache == old(self).cache,
    {
        let total: usize = self.cache.data.len();
        if must || total - self.flushed > MAX_MEM_BUFFER_LIMIT {
            self.flushed = total;
            self.progress.push(total as u64);
        }
    }

    /// Applies one cover, with the literal bytes before it.
    fn apply_cover(&mut self, old_data: &Vec<u8>, cover: &CoverHeader, new_data_size: i64) -> (r:
        Result<(), HDiffError>)
        requires
            old(self).wf(),
            old(self).cache.data@.len() == old(self).new_pos_back,
            new_data_size <= usize::MAX,
            cover.cover_length >= 0,
        ensures
            match old(self).state().apply_cover(old_data@, *cover, new_data_size as int) {
                Ok(s) => r is Ok && final(self).wf() && final(self).state() == s
                    && final(self).cache.data@.len() == final(self).new_pos_back,
                Err(e) => r == Err::<(), HDiffError>(e),
            },
    {
        if cover.new_pos < self.new_pos_back {
            return Err(HDiffError::BackwardCovers);
        }
        let cover_end: i64 = match cover.new_pos.checked_add(cover.cover_length) {
            Some(v) => v,
            None => return Err(HDiffError::CoverLengthOverflow),
        };
        if cover_end > new_data_size {
            return Err(HDiffError::CoverPastEnd);
        }
        if self.new_pos_back < cover.new_pos {
            let gap: i64 = cover.new_pos - self.new_pos_back;
            self.add_literal(gap)?;
        }
        self.add_old(old_data, cover.old_pos, cover.cover_length)?;
        self.new_pos_back = cover_end;
        self.hand_on(cover.next_cover_index == 0);
        Ok(())
    }
}

/// Applies a sectioned patch to the old data.
pub fn write_cover_stream_to_output(
    clips: PatchClips,
    old_data: &Vec<u8>,
    header_info: &HeaderInfo,
) -> (r: Result<PatchOutput, HDiffError>)
    requires
        clips.wf(),
        header_info.new_data_size <= usize::MAX,
    ensures
        match cover_stream_output(
            clips.cover@,
            clips.rle_ctrl@,
            clips.rle_code@,
            clips.new_data_diff@,
            old_data@,
            *header_info,
        ) {
            Ok(s) => r matches Ok(o) && o.data@ == s.out && o.progress@ == s.progress,
            Err(e) => r matches Err(f) && f == e,
        },
        r matches Ok(o) ==> o.data@.len() == if header_info.new_data_size > 0 {
            header_info.new_data_size as int
        } else {
            0
        },
{
    let headers: Vec<CoverHeader> = enumerate_cover_headers(
        clips.cover,
        header_info.chunk_info.cover_buf_size,
        header_info.chunk_info.cover_count,
    )?;
    proof {
        let start = first_cover_state(
            clips.cover@,
            header_info.chunk_info.cover_buf_size as int,
            header_info.chunk_info.cover_count as int,
        )->Ok_0;
        law_covers_are_ordered(start);
    }
    let mut p = Patcher {
        cache: ByteCursor::new(Vec::new()),
        flushed: 0,
        progress: Vec::new(),
        clip: RleRefClip::default(),
        ctrl: clips.rle_ctrl,
        code: clips.rle_code,
        diff: clips.new_data_diff,
        shared_buffer: vec![0u8; MAX_ARRAY_POOL_LEN],
        new_pos_back: 0,
    };
    let ghost first = p.state();
    assert(first == first_patch_state(
        clips.rle_ctrl@,
        clips.rle_code@,
        clips.new_data_diff@,
    ));
    let size: i64 = header_info.new_data_size;
    let ghost whole = first.apply_covers(old_data@, headers@, 0, size as int);
    let mut i: usize = 0;
    while i < headers.len()
        invariant
            i <= headers@.len(),
            p.wf(),
            p.cache.data@.len() == p.new_pos_back,
            p.new_pos_back <= size || i == 0,
            i == 0 ==> p.new_pos_back == 0,
            size == header_info.new_data_size,
            size <= usize::MAX,
            forall|j: int| 0 <= j < headers@.len() ==> (#[trigger] headers@[j]).cover_length >= 0,
            whole == p.state().apply_covers(old_data@, headers@, i as int, size as int),
            whole == cover_stream_output(
                clips.cover@,
                clips.rle_ctrl@,
                clips.rle_code@,
                clips.new_data_diff@,
                old_data@,
                *header_info,
            ),
        decreases headers@.len() - i,
    {
        p.apply_cover(old_data, &headers[i], size)?;
        i += 1;
    }
    if p.new_pos_back < size {
        p.add_literal(size - p.new_pos_back)?;
        p.hand_on(true);
    }
    Ok(PatchOutput { data: p.cache.data, progress: p.progress })
}

} // verus!

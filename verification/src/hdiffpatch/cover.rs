//! The list of covers of a sectioned patch.

use vstd::prelude::*;
use super::error::HDiffError;
use super::header::CoverHeader;
use super::header::K_SIGN_TAG_BIT;
use super::header::MAX_MEM_BUFFER_LEN;
use super::parser::read_long_7bit_from_slice;
use super::parser::slice_long_7bit;
use super::parser::ByteStream;
use super::parser::StreamView;

verus! {

/// The largest number of covers that is taken.
pub const MAX_COVER_COUNT: i64 = 50_000_000;

/// The largest number of covers that fits in one gibibyte of headers.
pub const MAX_HEADERS_BY_MEMORY: i64 = 0x200_0000;

/// Where the decoding of covers stands: the bytes, whether they were read into
/// memory at once, the ends of the last cover in the old and the new data, and
/// the number of covers to come.
pub ghost struct CoverState {
    pub stream: StreamView,
    pub buffered: bool,
    pub old_back: int,
    pub new_back: int,
    pub remaining: int,
}

/// An integer of a cover.
pub open spec fn cover_long(stream: StreamView, buffered: bool, tag_bit: u8, prev: u8) -> (
    Result<i64, HDiffError>,
    StreamView,
) {
    if buffered {
        let (v, end) = slice_long_7bit(stream.data, stream.pos, tag_bit, prev);
        (v, stream.at(end))
    } else {
        stream.long_7bit(tag_bit, prev)
    }
}

/// Decoding a cover: the distance of its old position from the end of the last
/// one, with a sign in the top bit; the literal bytes before it; its length. The
/// second component says where decoding stands then, also where the cover is
/// refused: a cover is counted once it is begun, and what was read of it is
/// behind the read position.
pub open spec fn cover_step(s: CoverState) -> (Result<CoverHeader, HDiffError>, CoverState) {
    let begun = CoverState { remaining: s.remaining - 1, ..s };
    if s.stream.left() <= 0 {
        (Err(HDiffError::CoverHeaderTruncated), begun)
    } else {
        let sign = s.stream.data[s.stream.pos];
        let (inc, s1) = cover_long(
            s.stream.at(s.stream.pos + 1),
            s.buffered,
            K_SIGN_TAG_BIT,
            sign,
        );
        let t = CoverState { stream: s1, ..begun };
        match inc {
            Err(e) => (Err(e), t),
            Ok(inc) => {
                let old_pos = if sign < 128 {
                    s.old_back + inc
                } else {
                    s.old_back - inc
                };
                if old_pos > i64::MAX {
                    (Err(HDiffError::CoverOldPosOverflow), t)
                } else if old_pos < 0 {
                    (Err(HDiffError::CoverOldPosNegative), t)
                } else {
                    cover_lengths_step(t, old_pos)
                }
            },
        }
    }
}

/// The second half of a cover, behind its old position. Where only its end in
/// the new data is out of range, its end in the old data is kept.
pub open spec fn cover_lengths_step(s: CoverState, old_pos: int) -> (
    Result<CoverHeader, HDiffError>,
    CoverState,
) {
    let (copy, s2) = cover_long(s.stream, s.buffered, 0, 0);
    match copy {
        Err(e) => (Err(e), CoverState { stream: s2, ..s }),
        Ok(copy) => {
            let (len, s3) = cover_long(s2, s.buffered, 0, 0);
            let t = CoverState { stream: s3, ..s };
            match len {
                Err(e) => (Err(e), t),
                Ok(len) => {
                    let new_pos = s.new_back + copy;
                    if new_pos > i64::MAX {
                        (Err(HDiffError::CoverNewPosOverflow), t)
                    } else if old_pos + len > i64::MAX {
                        (Err(HDiffError::CoverOldPosOverflow), t)
                    } else if new_pos + len > i64::MAX {
                        (
                            Err(HDiffError::CoverLastNewPosOverflow),
                            CoverState { old_back: old_pos + len, ..t },
                        )
                    } else {
                        (
                            Ok(
                                CoverHeader {
                                    old_pos: old_pos as i64,
                                    new_pos: new_pos as i64,
                                    cover_length: len,
                                    next_cover_index: s.remaining as i64,
                                },
                            ),
                            CoverState { old_back: old_pos + len, new_back: new_pos + len, ..t },
                        )
                    }
                },
            }
        },
    }
}

/// All covers from `s` on.
pub open spec fn parse_covers(s: CoverState) -> Result<Seq<CoverHeader>, HDiffError>
    decreases s.remaining,
{
    if s.remaining <= 0 {
        Ok(Seq::empty())
    } else {
        let (cover, t) = cover_step(s);
        match cover {
            Err(e) => Err(e),
            Ok(h) => match parse_covers(t) {
                Err(e) => Err(e),
                Ok(rest) => Ok(seq![h] + rest),
            },
        }
    }
}

/// Where decoding starts, given the cover section of a patch.
pub open spec fn first_cover_state(stream: StreamView, cover_size: int, cover_count: int) -> Result<
    CoverState,
    HDiffError,
> {
    if cover_count <= 0 {
        Ok(
            CoverState {
                stream: StreamView { data: Seq::empty(), pos: 0, damaged: false },
                buffered: true,
                old_back: 0,
                new_back: 0,
                remaining: 0,
            },
        )
    } else if cover_size < MAX_MEM_BUFFER_LEN {
        if stream.left() < cover_size {
            Err(HDiffError::CoverDataShort)
        } else {
            Ok(
                CoverState {
                    stream: StreamView {
                        data: stream.next_bytes(cover_size),
                        pos: 0,
                        damaged: false,
                    },
                    buffered: true,
                    old_back: 0,
                    new_back: 0,
                    remaining: cover_count,
                },
            )
        }
    } else {
        Ok(
            CoverState {
                stream,
                buffered: false,
                old_back: 0,
                new_back: 0,
                remaining: cover_count,
            },
        )
    }
}

/// Why a list of `cover_count` covers in `cover_size` bytes is refused.
pub open spec fn cover_limits(cover_size: int, cover_count: int) -> Option<HDiffError> {
    if cover_count < 0 {
        Some(HDiffError::CoverCountNegative)
    } else if cover_size < 0 {
        Some(HDiffError::CoverSizeNegative)
    } else if cover_count > MAX_COVER_COUNT || cover_count > MAX_HEADERS_BY_MEMORY {
        Some(HDiffError::CoverCountTooLarge)
    } else if cover_count > 0 && cover_size == 0 {
        Some(HDiffError::CoverSizeZero)
    } else {
        None
    }
}

/// The covers of a patch, given its cover section.
pub open spec fn cover_list(stream: StreamView, cover_size: int, cover_count: int) -> Result<
    Seq<CoverHeader>,
    HDiffError,
> {
    match cover_limits(cover_size, cover_count) {
        Some(e) => Err(e),
        None => match first_cover_state(stream, cover_size, cover_count) {
            Err(e) => Err(e),
            Ok(s) => parse_covers(s),
        },
    }
}

/// Decodes covers one by one.
pub struct CoverHeaderIterator {
    pub reader: ByteStream,
    pub buffered: bool,
    pub remaining: i64,
    pub last_old_pos_back: i64,
    pub last_new_pos_back: i64,
}

impl View for CoverHeaderIterator {
    type V = CoverState;

    open spec fn view(&self) -> CoverState {
        CoverState {
            stream: self.reader@,
            buffered: self.buffered,
            old_back: self.last_old_pos_back as int,
            new_back: self.last_new_pos_back as int,
            remaining: self.remaining as int,
        }
    }
}

impl CoverHeaderIterator {
    pub open spec fn wf(&self) -> bool {
        &&& self.reader.wf()
        &&& self.last_old_pos_back >= 0
        &&& self.last_new_pos_back >= 0
    }

    /// Cover data below the in-memory limit is read at once; longer data is
    /// decoded from the stream.
    pub fn new(cover_reader: ByteStream, cover_size: i64, cover_count: i64) -> (r: Result<
        CoverHeaderIterator,
        HDiffError,
    >)
        requires
            cover_reader.wf(),
            cover_count > 0 ==> cover_size >= 0,
        ensures
            match r {
                Ok(it) => it.wf() && first_cover_state(
                    cover_reader@,
                    cover_size as int,
                    cover_count as int,
                ) == Ok::<CoverState, HDiffError>(it@),
                Err(e) => first_cover_state(cover_reader@, cover_size as int, cover_count as int)
                    == Err::<CoverState, HDiffError>(e),
            },
    {
        if cover_count <= 0 {
            return Ok(
                CoverHeaderIterator {
                    reader: ByteStream::new(Vec::new()),
                    buffered: true,
                    remaining: 0,
                    last_old_pos_back: 0,
                    last_new_pos_back: 0,
                },
            );
        }
        if cover_size < MAX_MEM_BUFFER_LEN {
            let mut source = cover_reader;
            match source.read_exact(cover_size as usize) {
                Ok(buffer) => Ok(
                    CoverHeaderIterator {
                        reader: ByteStream::new(buffer),
                        buffered: true,
                        remaining: cover_count,
                        last_old_pos_back: 0,
                        last_new_pos_back: 0,
                    },
                ),
                Err(_) => Err(HDiffError::CoverDataShort),
            }
        } else {
            Ok(
                CoverHeaderIterator {
                    reader: cover_reader,
                    buffered: false,
                    remaining: cover_count,
                    last_old_pos_back: 0,
                    last_new_pos_back: 0,
                },
            )
        }
    }

    fn read_long(&mut self, tag_bit: u8, prev: u8) -> (r: Result<i64, HDiffError>)
        requires
            old(self).wf(),
            tag_bit <= 7,
        ensures
            final(self).wf(),
            (r, final(self)@.stream) == cover_long(
                old(self)@.stream,
                old(self).buffered,
                tag_bit,
                prev,
            ),
            final(self)@ == (CoverState { stream: final(self)@.stream, ..old(self)@ }),
            r matches Ok(v) ==> v >= 0,
    {
        if self.buffered {
            let mut at: usize = self.reader.pos;
            let r = read_long_7bit_from_slice(&self.reader.data, &mut at, tag_bit, prev);
            self.reader.pos = at;
            r
        } else {
            self.reader.read_long_7bit_tagged(tag_bit, prev)
        }
    }

    /// The next cover, or nothing when all are read.
    pub fn next(&mut self) -> (r: Option<Result<CoverHeader, HDiffError>>)
        requires
            old(self).wf(),
        ensures
            final(self).wf(),
            old(self).remaining <= 0 ==> r is None && *final(self) == *old(self),
            old(self).remaining > 0 ==> r is Some && (r->Some_0, final(self)@) == cover_step(
                old(self)@,
            ),
    {
        if self.remaining <= 0 {
            return None;
        }
        self.remaining = self.remaining - 1;
        let sign: u8 = match self.reader.read_byte() {
            Ok(b) => b,
            Err(_) => return Some(Err(HDiffError::CoverHeaderTruncated)),
        };
        let inc: i64 = match self.read_long(K_SIGN_TAG_BIT, sign) {
            Ok(v) => v,
            Err(e) => return Some(Err(e)),
        };
        let old_pos: i64 = if sign < 128 {
            match self.last_old_pos_back.checked_add(inc) {
                Some(v) => v,
                None => return Some(Err(HDiffError::CoverOldPosOverflow)),
            }
        } else {
            self.last_old_pos_back - inc
        };
        if old_pos < 0 {
            return Some(Err(HDiffError::CoverOldPosNegative));
        }
        let copy_length: i64 = match self.read_long(0, 0) {
            Ok(v) => v,
            Err(e) => return Some(Err(e)),
        };
        let cover_length: i64 = match self.read_long(0, 0) {
            Ok(v) => v,
            Err(e) => return Some(Err(e)),
        };
        let new_pos: i64 = match self.last_new_pos_back.checked_add(copy_length) {
            Some(v) => v,
            None => return Some(Err(HDiffError::CoverNewPosOverflow)),
        };
        let old_end: i64 = match old_pos.checked_add(cover_length) {
            Some(v) => v,
            None => return Some(Err(HDiffError::CoverOldPosOverflow)),
        };
        self.last_old_pos_back = old_end;
        let new_end: i64 = match new_pos.checked_add(cover_length) {
            Some(v) => v,
            None => return Some(Err(HDiffError::CoverLastNewPosOverflow)),
        };
        self.last_new_pos_back = new_end;
        Some(Ok(CoverHeader::new(old_pos, new_pos, cover_length, self.remaining)))
    }

    /// The number of covers to come.
    pub fn size_hint(&self) -> (r: u64)
        ensures
            r == if self.remaining > 0 {
                self.remaining as int
            } else {
                0
            },
    {
        if self.remaining > 0 {
            self.remaining as u64
        } else {
            0
        }
    }
}

/// Checks the size and the number of covers, and starts decoding them.
pub fn enumerate_cover_headers_checked(
    cover_reader: ByteStream,
    cover_size: i64,
    cover_count: i64,
) -> (r: Result<CoverHeaderIterator, HDiffError>)
    requires
        cover_reader.wf(),
    ensures
        match cover_limits(cover_size as int, cover_count as int) {
            Some(e) => r matches Err(f) && f == e,
            None => match r {
                Ok(it) => it.wf() && first_cover_state(
                    cover_reader@,
                    cover_size as int,
                    cover_count as int,
                ) == Ok::<CoverState, HDiffError>(it@),
                Err(e) => first_cover_state(cover_reader@, cover_size as int, cover_count as int)
                    == Err::<CoverState, HDiffError>(e),
            },
        },
{
    if cover_count < 0 {
        return Err(HDiffError::CoverCountNegative);
    }
    if cover_size < 0 {
        return Err(HDiffError::CoverSizeNegative);
    }
    if cover_count > MAX_COVER_COUNT || cover_count > MAX_HEADERS_BY_MEMORY {
        return Err(HDiffError::CoverCountTooLarge);
    }
    if cover_count > 0 && cover_size == 0 {
        return Err(HDiffError::CoverSizeZero);
    }
    CoverHeaderIterator::new(cover_reader, cover_size, cover_count)
}

/// Decodes all covers of a patch.
pub fn enumerate_cover_headers(cover_reader: ByteStream, cover_size: i64, cover_count: i64) -> (r:
    Result<Vec<CoverHeader>, HDiffError>)
    requires
        cover_reader.wf(),
    ensures
        match r {
            Ok(v) => cover_list(cover_reader@, cover_size as int, cover_count as int) == Ok::<
                Seq<CoverHeader>,
                HDiffError,
            >(v@),
            Err(e) => cover_list(cover_reader@, cover_size as int, cover_count as int) == Err::<
                Seq<CoverHeader>,
                HDiffError,
            >(e),
        },
{
    let mut it = enumerate_cover_headers_checked(cover_reader, cover_size, cover_count)?;
    let ghost whole = parse_covers(it@);
    let mut out: Vec<CoverHeader> = Vec::new();
    proof {
        if whole is Ok {
            assert(out@ + whole->Ok_0 =~= whole->Ok_0);
        }
    }
    while it.remaining > 0
        invariant
            it.wf(),
            match parse_covers(it@) {
                Ok(rest) => whole == Ok::<Seq<CoverHeader>, HDiffError>(out@ + rest),
                Err(e) => whole == Err::<Seq<CoverHeader>, HDiffError>(e),
            },
            whole == cover_list(cover_reader@, cover_size as int, cover_count as int),
        decreases it.remaining,
    {
        let ghost before = it@;
        let ghost so_far = out@;
        match it.next() {
            Some(Ok(h)) => {
                out.push(h);
                proof {
                    if parse_covers(it@) is Ok {
                        let rest = parse_covers(it@)->Ok_0;
                        assert(so_far + (seq![h] + rest) =~= out@ + rest);
                    }
                }
            },
            Some(Err(e)) => return Err(e),
            None => return Ok(out),
        }
    }
    assert(out@ + Seq::<CoverHeader>::empty() =~= out@);
    Ok(out)
}

/// The covers of a patch come in order and do not overlap in the new data:
/// each starts at or behind the end of the one before it, none has a negative
/// position or length, and the last one is marked by a zero index.
pub proof fn law_covers_are_ordered(s: CoverState)
    requires
        s.stream.wf(),
        s.old_back >= 0,
        s.new_back >= 0,
        s.remaining <= i64::MAX,
        parse_covers(s) is Ok,
    ensures
        ({
            let covers = parse_covers(s)->Ok_0;
            &&& covers.len() == if s.remaining > 0 {
                s.remaining
            } else {
                0
            }
            &&& forall|i: int|
                0 <= i < covers.len() ==> {
                    &&& (#[trigger] covers[i]).old_pos >= 0
                    &&& covers[i].cover_length >= 0
                    &&& covers[i].old_pos + covers[i].cover_length <= i64::MAX
                    &&& covers[i].new_pos + covers[i].cover_length <= i64::MAX
                    &&& covers[i].new_pos >= s.new_back
                    &&& covers[i].next_cover_index == covers.len() - 1 - i
                }
            &&& forall|i: int, j: int|
                0 <= i < j < covers.len() ==> (#[trigger] covers[i]).new_pos
                    + covers[i].cover_length <= (#[trigger] covers[j]).new_pos
        }),
    decreases s.remaining,
{
    if s.remaining > 0 {
        lemma_cover_step(s);
        let h = cover_step(s).0->Ok_0;
        let t = cover_step(s).1;
        law_covers_are_ordered(t);
        let rest = parse_covers(t)->Ok_0;
        let covers = parse_covers(s)->Ok_0;
        assert(covers =~= seq![h] + rest);
        assert forall|i: int| 0 <= i < covers.len() implies {
            &&& (#[trigger] covers[i]).old_pos >= 0
            &&& covers[i].cover_length >= 0
            &&& covers[i].old_pos + covers[i].cover_length <= i64::MAX
            &&& covers[i].new_pos + covers[i].cover_length <= i64::MAX
            &&& covers[i].new_pos >= s.new_back
            &&& covers[i].next_cover_index == covers.len() - 1 - i
        } by {
            if i > 0 {
                assert(covers[i] == rest[i - 1]);
            }
        }
        assert forall|i: int, j: int| 0 <= i < j < covers.len() implies (
        #[trigger] covers[i]).new_pos + covers[i].cover_length <= (#[trigger] covers[j]).new_pos by {
            assert(covers[j] == rest[j - 1]);
            if i > 0 {
                assert(covers[i] == rest[i - 1]);
            }
        }
    }
}

/// A decoded cover is well formed and leaves a well-formed state.
proof fn lemma_cover_step(s: CoverState)
    requires
        s.stream.wf(),
        s.old_back >= 0,
        s.new_back >= 0,
        cover_step(s).0 is Ok,
    ensures
        ({
            let h = cover_step(s).0->Ok_0;
            let t = cover_step(s).1;
            &&& t.stream.wf()
            &&& t.old_back == h.old_pos + h.cover_length
            &&& t.new_back == h.new_pos + h.cover_length
            &&& h.old_pos >= 0
            &&& h.cover_length >= 0
            &&& h.new_pos >= s.new_back
            &&& t.remaining == s.remaining - 1
        }),
{
    let sign = s.stream.data[s.stream.pos];
    let at = s.stream.at(s.stream.pos + 1);
    lemma_cover_long(at, s.buffered, K_SIGN_TAG_BIT, sign);
    let s1 = cover_long(at, s.buffered, K_SIGN_TAG_BIT, sign).1;
    lemma_cover_long(s1, s.buffered, 0, 0);
    let s2 = cover_long(s1, s.buffered, 0, 0).1;
    lemma_cover_long(s2, s.buffered, 0, 0);
}

/// An integer of a cover is not negative, and reading it stays in the stream.
proof fn lemma_cover_long(stream: StreamView, buffered: bool, tag_bit: u8, prev: u8)
    requires
        stream.wf(),
    ensures
        cover_long(stream, buffered, tag_bit, prev).1.wf(),
        cover_long(stream, buffered, tag_bit, prev).0 matches Ok(v) ==> v >= 0,
{
    super::parser::lemma_varint_at_bounds(
        stream.data,
        stream.pos,
        tag_bit,
        prev,
        super::parser::LONG_CAP as int,
    );
}

/// What taking covers from `s` on comes to, call by call, until none is left.
pub open spec fn cover_results(s: CoverState) -> Seq<Result<CoverHeader, HDiffError>>
    decreases s.remaining,
{
    if s.remaining <= 0 {
        Seq::empty()
    } else {
        let (r, t) = cover_step(s);
        seq![r] + cover_results(t)
    }
}

/// As many results come as covers are counted, also behind a cover that is
/// refused.
pub proof fn law_covers_are_counted(s: CoverState)
    ensures
        cover_results(s).len() == if s.remaining > 0 {
            s.remaining
        } else {
            0
        },
    decreases s.remaining,
{
    if s.remaining > 0 {
        law_covers_are_counted(cover_step(s).1);
    }
}

/// Two results give the same cover, or both give none.
pub open spec fn same_result(
    a: Result<CoverHeader, HDiffError>,
    b: Result<CoverHeader, HDiffError>,
) -> bool {
    match a {
        Ok(h) => b == Ok::<CoverHeader, HDiffError>(h),
        Err(_) => b is Err,
    }
}

/// Two decodings stand at the same place of the same bytes.
pub open spec fn same_place(a: CoverState, b: CoverState) -> bool {
    &&& a.stream.data == b.stream.data
    &&& a.stream.pos == b.stream.pos
    &&& a.old_back == b.old_back
    &&& a.new_back == b.new_back
    &&& a.remaining == b.remaining
}

proof fn lemma_same_long(a: CoverState, b: CoverState, tag_bit: u8, prev: u8)
    requires
        same_place(a, b),
        a.stream.wf(),
    ensures
        ({
            let (x, s) = cover_long(a.stream, a.buffered, tag_bit, prev);
            let (y, t) = cover_long(b.stream, b.buffered, tag_bit, prev);
            &&& s.data == t.data
            &&& s.pos == t.pos
            &&& s.wf()
            &&& x matches Ok(v) ==> y == Ok::<i64, HDiffError>(v)
            &&& x is Err ==> y is Err
        }),
{
    lemma_cover_long(a.stream, a.buffered, tag_bit, prev);
}

proof fn lemma_same_step(a: CoverState, b: CoverState)
    requires
        same_place(a, b),
        a.stream.wf(),
    ensures
        same_result(cover_step(a).0, cover_step(b).0),
        same_place(cover_step(a).1, cover_step(b).1),
        cover_step(a).1.stream.wf(),
{
    if a.stream.left() > 0 {
        let sign = a.stream.data[a.stream.pos];
        let a0 = CoverState { stream: a.stream.at(a.stream.pos + 1), ..a };
        let b0 = CoverState { stream: b.stream.at(b.stream.pos + 1), ..b };
        lemma_same_long(a0, b0, K_SIGN_TAG_BIT, sign);
        let a1 = CoverState {
            stream: cover_long(a0.stream, a.buffered, K_SIGN_TAG_BIT, sign).1,
            ..a
        };
        let b1 = CoverState {
            stream: cover_long(b0.stream, b.buffered, K_SIGN_TAG_BIT, sign).1,
            ..b
        };
        lemma_same_long(a1, b1, 0, 0);
        let a2 = CoverState { stream: cover_long(a1.stream, a.buffered, 0, 0).1, ..a };
        let b2 = CoverState { stream: cover_long(b1.stream, b.buffered, 0, 0).1, ..b };
        lemma_same_long(a2, b2, 0, 0);
    }
}

proof fn lemma_same_results(a: CoverState, b: CoverState)
    requires
        same_place(a, b),
        a.stream.wf(),
    ensures
        cover_results(a).len() == cover_results(b).len(),
        forall|i: int|
            0 <= i < cover_results(a).len() ==> same_result(
                #[trigger] cover_results(a)[i],
                cover_results(b)[i],
            ),
    decreases a.remaining,
{
    if a.remaining > 0 {
        lemma_same_step(a, b);
        let (r, s) = cover_step(a);
        let (q, t) = cover_step(b);
        lemma_same_results(s, t);
        assert forall|i: int| 0 <= i < cover_results(a).len() implies same_result(
            #[trigger] cover_results(a)[i],
            cover_results(b)[i],
        ) by {
            if i > 0 {
                assert(cover_results(a)[i] == cover_results(s)[i - 1]);
                assert(cover_results(b)[i] == cover_results(t)[i - 1]);
            }
        }
    }
}

/// Whether covers are read into memory at once or decoded from the stream makes
/// no difference: call by call, both give the same cover or both refuse it, and
/// both end after as many calls as covers are counted.
pub proof fn law_buffering_is_immaterial(stream: StreamView, cover_count: int)
    requires
        stream.pos == 0,
        stream.data.len() < MAX_MEM_BUFFER_LEN,
    ensures
        ({
            let a = first_cover_state(stream, stream.data.len() as int, cover_count);
            let b = first_cover_state(stream, MAX_MEM_BUFFER_LEN as int, cover_count);
            &&& a is Ok
            &&& b is Ok
            &&& cover_count > 0 ==> a->Ok_0.buffered && !b->Ok_0.buffered
            &&& cover_results(a->Ok_0).len() == if cover_count > 0 {
                cover_count
            } else {
                0
            }
            &&& cover_results(b->Ok_0).len() == cover_results(a->Ok_0).len()
            &&& forall|i: int|
                0 <= i < cover_results(a->Ok_0).len() ==> same_result(
                    #[trigger] cover_results(a->Ok_0)[i],
                    cover_results(b->Ok_0)[i],
                )
        }),
{
    let a = first_cover_state(stream, stream.data.len() as int, cover_count)->Ok_0;
    let b = first_cover_state(stream, MAX_MEM_BUFFER_LEN as int, cover_count)->Ok_0;
    law_covers_are_counted(a);
    if cover_count > 0 {
        assert(stream.next_bytes(stream.data.len() as int) =~= stream.data);
    }
    lemma_same_results(a, b);
}

} // verus!

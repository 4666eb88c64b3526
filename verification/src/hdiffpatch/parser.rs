//! Byte streams and the variable-length integers of the patch format.
//!
//! An integer is a run of seven-bit groups, most significant group first. The
//! high bit of a byte says that another group follows. The first byte may give
//! up its top `tag_bit` bits to a tag, in which case it was read already and
//! its payload is the `7 - tag_bit` low bits.

use vstd::prelude::*;
use super::error::HDiffError;

verus! {

/// What decoding an integer comes to.
#[derive(Clone, Copy, Debug, PartialEq, Eq, Structural)]
pub enum Varint {
    Value(u64),
    Overflow,
    Truncated,
}

/// The number of values that the payload of a first byte can take.
pub open spec fn tag_base(tag_bit: u8) -> int {
    if tag_bit == 0 {
        128
    } else if tag_bit == 1 {
        64
    } else if tag_bit == 2 {
        32
    } else if tag_bit == 3 {
        16
    } else if tag_bit == 4 {
        8
    } else if tag_bit == 5 {
        4
    } else if tag_bit == 6 {
        2
    } else {
        1
    }
}

/// The groups that follow a value `acc` read so far, from position `pos`; the
/// second component is the position behind the last byte consumed. A value
/// above `cap` takes no further group.
pub open spec fn varint_tail(s: Seq<u8>, pos: int, acc: int, cap: int) -> (Varint, int)
    decreases s.len() - pos,
{
    if acc > cap {
        (Varint::Overflow, pos)
    } else if pos < 0 || pos >= s.len() {
        (Varint::Truncated, pos)
    } else {
        let v = acc * 128 + s[pos] % 128;
        if s[pos] < 128 {
            (Varint::Value(v as u64), pos + 1)
        } else {
            varint_tail(s, pos + 1, v, cap)
        }
    }
}

/// The integer whose first byte is `first`, with its further groups at `pos`.
pub open spec fn varint_from(s: Seq<u8>, pos: int, tag_bit: u8, first: u8, cap: int) -> (
    Varint,
    int,
) {
    let base = tag_base(tag_bit);
    let payload = (first as int) % base;
    if ((first as int) / base) % 2 == 0 {
        (Varint::Value(payload as u64), pos)
    } else {
        varint_tail(s, pos, payload, cap)
    }
}

/// The integer at `pos`: its first byte is `prev_byte` when there is a tag, and
/// the byte at `pos` when there is none.
pub open spec fn varint_at(s: Seq<u8>, pos: int, tag_bit: u8, prev_byte: u8, cap: int) -> (
    Varint,
    int,
) {
    if tag_bit != 0 {
        varint_from(s, pos, tag_bit, prev_byte, cap)
    } else if pos < 0 || pos >= s.len() {
        (Varint::Truncated, pos)
    } else {
        varint_from(s, pos + 1, 0, s[pos], cap)
    }
}

/// The largest value that may still take a group within 63 bits.
pub const LONG_CAP: u64 = 0x00ff_ffff_ffff_ffff;

/// The largest value that may still take a group within 31 bits.
pub const INT_CAP: u64 = 0x00ff_ffff;

/// A decoded value is bounded by the cap, and decoding stays in the input.
pub proof fn lemma_varint_tail_bounds(s: Seq<u8>, pos: int, acc: int, cap: int)
    requires
        0 <= pos <= s.len(),
        0 <= acc,
        0 <= cap <= 0x01ff_ffff_ffff_fffe,
    ensures
        pos <= varint_tail(s, pos, acc, cap).1 <= s.len(),
        varint_tail(s, pos, acc, cap).0 matches Varint::Value(v) ==> v <= cap * 128 + 127,
    decreases s.len() - pos,
{
    if acc <= cap && pos < s.len() && s[pos] >= 128 {
        lemma_varint_tail_bounds(s, pos + 1, acc * 128 + s[pos] % 128, cap);
    }
}

/// A decoded integer is bounded by the cap, and decoding stays in the input.
pub proof fn lemma_varint_at_bounds(s: Seq<u8>, pos: int, tag_bit: u8, prev_byte: u8, cap: int)
    requires
        0 <= pos <= s.len(),
        0 <= cap <= 0x01ff_ffff_ffff_fffe,
    ensures
        pos <= varint_at(s, pos, tag_bit, prev_byte, cap).1 <= s.len(),
        varint_at(s, pos, tag_bit, prev_byte, cap).0 matches Varint::Value(v) ==> v <= cap * 128
            + 127,
{
    let at = if tag_bit != 0 { pos } else { pos + 1 };
    if tag_bit != 0 || pos < s.len() {
        let first = if tag_bit != 0 { prev_byte } else { s[pos] };
        let base = tag_base(tag_bit);
        assert(0 <= (first as int) % base < 128);
        lemma_varint_tail_bounds(s, at, (first as int) % base, cap);
    }
}

/// Bytes that are read from front to back. `damaged` says that the source could
/// not be decoded any further than `data`.
pub struct ByteStream {
    pub data: Vec<u8>,
    pub pos: usize,
    pub damaged: bool,
}

/// The mathematical content of a byte stream.
pub ghost struct StreamView {
    pub data: Seq<u8>,
    pub pos: int,
    pub damaged: bool,
}

impl StreamView {
    /// This stream with the read position moved to `pos`.
    pub open spec fn at(self, pos: int) -> StreamView {
        StreamView { data: self.data, pos, damaged: self.damaged }
    }

    /// The error of a read past the last byte.
    pub open spec fn end_error(self) -> HDiffError {
        if self.damaged {
            HDiffError::DamagedSection
        } else {
            HDiffError::UnexpectedEof
        }
    }

    /// The position is inside the data or at its end.
    pub open spec fn wf(self) -> bool {
        0 <= self.pos <= self.data.len()
    }

    /// The number of bytes not read yet.
    pub open spec fn left(self) -> int {
        self.data.len() - self.pos
    }

    /// The next `n` bytes.
    pub open spec fn next_bytes(self, n: int) -> Seq<u8> {
        self.data.subrange(self.pos, self.pos + n)
    }

    /// The 63-bit integer at the read position.
    pub open spec fn long_7bit(self, tag_bit: u8, prev_byte: u8) -> (
        Result<i64, HDiffError>,
        StreamView,
    ) {
        let (v, end) = varint_at(self.data, self.pos, tag_bit, prev_byte, LONG_CAP as int);
        (
            match v {
                Varint::Value(x) => Ok(x as i64),
                Varint::Overflow => Err(HDiffError::VarintOverflow),
                Varint::Truncated => Err(self.end_error()),
            },
            self.at(end),
        )
    }

    /// The 31-bit integer at the read position.
    pub open spec fn int_7bit(self, tag_bit: u8, prev_byte: u8) -> (
        Result<i32, HDiffError>,
        StreamView,
    ) {
        let (v, end) = varint_at(self.data, self.pos, tag_bit, prev_byte, INT_CAP as int);
        (
            match v {
                Varint::Value(x) => Ok(x as i32),
                Varint::Overflow => Err(HDiffError::VarintOverflow),
                Varint::Truncated => Err(self.end_error()),
            },
            self.at(end),
        )
    }
}

impl View for ByteStream {
    type V = StreamView;

    open spec fn view(&self) -> StreamView {
        StreamView { data: self.data@, pos: self.pos as int, damaged: self.damaged }
    }
}

fn tag_base_of(tag_bit: u8) -> (r: u8)
    requires
        tag_bit <= 7,
    ensures
        r == tag_base(tag_bit),
        r > 0,
{
    match tag_bit {
        0 => 128,
        1 => 64,
        2 => 32,
        3 => 16,
        4 => 8,
        5 => 4,
        6 => 2,
        _ => 1,
    }
}

/// Decodes the integer at `pos` in `data`.
pub fn decode_varint(data: &Vec<u8>, pos: usize, tag_bit: u8, prev_byte: u8, cap: u64) -> (r: (
    Varint,
    usize,
))
    requires
        pos <= data@.len(),
        tag_bit <= 7,
        cap <= 0x01ff_ffff_ffff_fffe,
    ensures
        (r.0, r.1 as int) == varint_at(data@, pos as int, tag_bit, prev_byte, cap as int),
        pos <= r.1 <= data@.len(),
{
    proof {
        lemma_varint_at_bounds(data@, pos as int, tag_bit, prev_byte, cap as int);
    }
    let mut at: usize = pos;
    let first: u8 = if tag_bit != 0 {
        prev_byte
    } else {
        if at >= data.len() {
            return (Varint::Truncated, at);
        }
        let b: u8 = data[at];
        at += 1;
        b
    };
    let base: u8 = tag_base_of(tag_bit);
    let mut value: u64 = (first % base) as u64;
    if (first / base) % 2 == 0 {
        return (Varint::Value(value), at);
    }
    let ghost whole = varint_at(data@, pos as int, tag_bit, prev_byte, cap as int);
    loop
        invariant
            pos <= at <= data@.len(),
            cap <= 0x01ff_ffff_ffff_fffe,
            varint_tail(data@, at as int, value as int, cap as int) == whole,
            whole == varint_at(data@, pos as int, tag_bit, prev_byte, cap as int),
        decreases data@.len() - at,
    {
        if value > cap {
            return (Varint::Overflow, at);
        }
        if at >= data.len() {
            return (Varint::Truncated, at);
        }
        let b: u8 = data[at];
        at += 1;
        value = value * 128 + (b % 128) as u64;
        if b < 128 {
            return (Varint::Value(value), at);
        }
    }
}

impl ByteStream {
    /// The read position is inside the data or at its end.
    pub open spec fn wf(&self) -> bool {
        self.pos <= self.data@.len()
    }

    /// No more bytes are left to read than in `other`.
    pub open spec fn left_at_most(&self, other: ByteStream) -> bool {
        self@.left() <= other@.left()
    }

    /// A stream over `data`, at its first byte.
    pub fn new(data: Vec<u8>) -> (r: ByteStream)
        ensures
            r.wf(),
            r@ == (StreamView { data: data@, pos: 0, damaged: false }),
    {
        ByteStream { data, pos: 0, damaged: false }
    }

    /// A stream over what could be decoded of a source.
    pub fn of_decoded(data: Vec<u8>, damaged: bool) -> (r: ByteStream)
        ensures
            r.wf(),
            r@ == (StreamView { data: data@, pos: 0, damaged }),
    {
        ByteStream { data, pos: 0, damaged }
    }

    /// The number of bytes read so far.
    pub fn position(&self) -> (r: u64)
        requires
            self.wf(),
        ensures
            r == self@.pos,
    {
        self.pos as u64
    }

    /// The error of a read past the last byte.
    pub fn end_error(&self) -> (r: HDiffError)
        ensures
            r == self@.end_error(),
    {
        if self.damaged {
            HDiffError::DamagedSection
        } else {
            HDiffError::UnexpectedEof
        }
    }

    /// The next byte.
    pub fn read_byte(&mut self) -> (r: Result<u8, HDiffError>)
        requires
            old(self).wf(),
        ensures
            final(self).wf(),
            old(self)@.left() > 0 ==> r == Ok::<u8, HDiffError>(old(self)@.data[old(self)@.pos])
                && final(self)@ == old(self)@.at(old(self)@.pos + 1),
            old(self)@.left() == 0 ==> r == Err::<u8, HDiffError>(old(self)@.end_error())
                && final(self)@ == old(self)@,
    {
        if self.pos < self.data.len() {
            let b: u8 = self.data[self.pos];
            self.pos = self.pos + 1;
            Ok(b)
        } else {
            Err(self.end_error())
        }
    }

    /// The next `n` bytes, or none of them when fewer are left.
    pub fn read_exact(&mut self, n: usize) -> (r: Result<Vec<u8>, HDiffError>)
        requires
            old(self).wf(),
        ensures
            final(self).wf(),
            old(self)@.left() >= n ==> {
                &&& r matches Ok(v)
                &&& v@ == old(self)@.next_bytes(n as int)
                &&& final(self)@ == old(self)@.at(old(self)@.pos + n)
            },
            old(self)@.left() < n ==> {
                &&& r matches Err(e)
                &&& e == old(self)@.end_error()
                &&& final(self)@ == old(self)@
            },
    {
        if self.data.len() - self.pos < n {
            return Err(self.end_error());
        }
        let start: usize = self.pos;
        let total: usize = self.data.len();
        let mut out: Vec<u8> = Vec::with_capacity(n);
        let mut i: usize = 0;
        while i < n
            invariant
                start + n <= total,
                total == self.data@.len(),
                *self == *old(self),
                start == old(self).pos,
                i <= n,
                out@ == self.data@.subrange(start as int, start + i),
            decreases n - i,
        {
            out.push(self.data[start + i]);
            i += 1;
            proof {
                assert(self.data@.subrange(start as int, start + i) =~= self.data@.subrange(
                    start as int,
                    start + i - 1,
                ).push(self.data@[start + i - 1]));
            }
        }
        self.pos = start + n;
        Ok(out)
    }

    /// A 63-bit integer.
    pub fn read_long_7bit(&mut self) -> (r: Result<i64, HDiffError>)
        requires
            old(self).wf(),
        ensures
            final(self).wf(),
            (r, final(self)@) == old(self)@.long_7bit(0, 0),
            r matches Ok(v) ==> v >= 0,
    {
        self.read_long_7bit_tagged(0, 0)
    }

    /// A 63-bit integer whose first byte is `prev_byte` when it carries a tag.
    pub fn read_long_7bit_tagged(&mut self, tag_bit: u8, prev_byte: u8) -> (r: Result<
        i64,
        HDiffError,
    >)
        requires
            old(self).wf(),
            tag_bit <= 7,
        ensures
            final(self).wf(),
            (r, final(self)@) == old(self)@.long_7bit(tag_bit, prev_byte),
            r matches Ok(v) ==> v >= 0,
    {
        let (v, end) = decode_varint(&self.data, self.pos, tag_bit, prev_byte, LONG_CAP);
        proof {
            lemma_varint_at_bounds(
                self.data@,
                self.pos as int,
                tag_bit,
                prev_byte,
                LONG_CAP as int,
            );
        }
        self.pos = end;
        match v {
            Varint::Value(x) => Ok(x as i64),
            Varint::Overflow => Err(HDiffError::VarintOverflow),
            Varint::Truncated => Err(self.end_error()),
        }
    }

    /// A 31-bit integer.
    pub fn read_int_7bit(&mut self) -> (r: Result<i32, HDiffError>)
        requires
            old(self).wf(),
        ensures
            final(self).wf(),
            (r, final(self)@) == old(self)@.int_7bit(0, 0),
            r matches Ok(v) ==> v >= 0,
    {
        self.read_int_7bit_tagged(0, 0)
    }

    /// A 31-bit integer whose first byte is `prev_byte` when it carries a tag.
    pub fn read_int_7bit_tagged(&mut self, tag_bit: u8, prev_byte: u8) -> (r: Result<
        i32,
        HDiffError,
    >)
        requires
            old(self).wf(),
            tag_bit <= 7,
        ensures
            final(self).wf(),
            (r, final(self)@) == old(self)@.int_7bit(tag_bit, prev_byte),
            r matches Ok(v) ==> v >= 0,
    {
        let (v, end) = decode_varint(&self.data, self.pos, tag_bit, prev_byte, INT_CAP);
        proof {
            lemma_varint_at_bounds(self.data@, self.pos as int, tag_bit, prev_byte, INT_CAP as int);
        }
        self.pos = end;
        match v {
            Varint::Value(x) => Ok(x as i32),
            Varint::Overflow => Err(HDiffError::VarintOverflow),
            Varint::Truncated => Err(self.end_error()),
        }
    }
}

/// The characters that `String::from_utf8_lossy` makes of malformed `bytes`.
pub uninterp spec fn utf8_lossy(bytes: Seq<u8>) -> Seq<char>;

/// `bytes` as text: well-formed UTF-8 is taken as it is.
pub open spec fn lossy_text(bytes: Seq<u8>) -> Seq<char> {
    if vstd::utf8::valid_utf8(bytes) {
        vstd::utf8::decode_utf8(bytes)
    } else {
        utf8_lossy(bytes)
    }
}

/// `String::from_utf8_lossy`: well-formed UTF-8 is taken as it is, and every
/// malformed part becomes the replacement character. The result depends on the
/// bytes alone; how many replacement characters stand for a malformed part is
/// not spelled out here.
#[verifier::external_body]
fn lossy_string(bytes: &Vec<u8>) -> (r: String)
    ensures
        vstd::utf8::valid_utf8(bytes@) ==> r@ == vstd::utf8::decode_utf8(bytes@),
        !vstd::utf8::valid_utf8(bytes@) ==> r@ == utf8_lossy(bytes@),
{
    String::from_utf8_lossy(bytes).into_owned()
}

/// The index of the first zero byte at or after `pos`, or the length of `s`.
pub open spec fn null_index(s: Seq<u8>, pos: int) -> int
    decreases s.len() - pos,
{
    if pos < 0 || pos >= s.len() {
        s.len() as int
    } else if s[pos] == 0 {
        pos
    } else {
        null_index(s, pos + 1)
    }
}

/// The search for a zero byte stays in the input, and no byte before it is zero.
pub proof fn lemma_null_index(s: Seq<u8>, pos: int)
    requires
        0 <= pos <= s.len(),
    ensures
        pos <= null_index(s, pos) <= s.len(),
        forall|i: int| pos <= i < null_index(s, pos) ==> s[i] != 0,
        null_index(s, pos) < s.len() ==> s[null_index(s, pos)] == 0,
    decreases s.len() - pos,
{
    if pos < s.len() && s[pos] != 0 {
        lemma_null_index(s, pos + 1);
    }
}

impl StreamView {
    /// The text up to the next zero byte, of at most `limit` bytes, and the
    /// stream behind what was read.
    pub open spec fn string_to_null(self, limit: int) -> (
        Result<Seq<char>, HDiffError>,
        StreamView,
    ) {
        let end = null_index(self.data, self.pos);
        if end - self.pos > limit {
            (Err(HDiffError::NullByteNotFound), self.at(self.pos + limit + 1))
        } else if end == self.data.len() {
            if self.damaged {
                (Err(HDiffError::DamagedSection), self.at(end))
            } else {
                (Ok(lossy_text(self.data.subrange(self.pos, end))), self.at(end))
            }
        } else {
            (Ok(lossy_text(self.data.subrange(self.pos, end))), self.at(end + 1))
        }
    }
}

impl ByteStream {
    /// Reads text up to a zero byte, which is consumed too, or to the end of
    /// the stream. More than `buffer_size` bytes before it are refused.
    pub fn read_string_to_null(&mut self, buffer_size: usize) -> (r: Result<String, HDiffError>)
        requires
            old(self).wf(),
        ensures
            final(self).wf(),
            final(self)@ == old(self)@.string_to_null(buffer_size as int).1,
            match r {
                Ok(s) => old(self)@.string_to_null(buffer_size as int).0 == Ok::<
                    Seq<char>,
                    HDiffError,
                >(s@),
                Err(e) => old(self)@.string_to_null(buffer_size as int).0 == Err::<
                    Seq<char>,
                    HDiffError,
                >(e),
            },
    {
        let start: usize = self.pos;
        let mut buf: Vec<u8> = Vec::new();
        proof {
            lemma_null_index(self.data@, start as int);
        }
        while self.pos < self.data.len()
            invariant
                self.wf(),
                self.data@ == old(self).data@,
                self.damaged == old(self).damaged,
                start == old(self).pos,
                start <= self.pos,
                self.pos - start == buf@.len(),
                buf@.len() <= buffer_size,
                buf@ == self.data@.subrange(start as int, self.pos as int),
                null_index(self.data@, start as int) == null_index(self.data@, self.pos as int),
            decreases self.data@.len() - self.pos,
        {
            let b: u8 = self.data[self.pos];
            self.pos = self.pos + 1;
            if b == 0 {
                return Ok(lossy_string(&buf));
            }
            if buf.len() >= buffer_size {
                proof {
                    lemma_null_index(self.data@, self.pos as int);
                }
                return Err(HDiffError::NullByteNotFound);
            }
            buf.push(b);
            proof {
                assert(self.data@.subrange(start as int, self.pos as int)
                    =~= self.data@.subrange(start as int, self.pos - 1).push(b));
            }
        }
        if self.damaged {
            return Err(HDiffError::DamagedSection);
        }
        Ok(lossy_string(&buf))
    }
}

/// Reads a 63-bit integer out of `buf` at `offset`, and moves `offset` behind
/// the bytes consumed.
pub fn read_long_7bit_from_slice(
    buf: &Vec<u8>,
    offset: &mut usize,
    tag_bit: u8,
    prev_byte: u8,
) -> (r: Result<i64, HDiffError>)
    requires
        tag_bit <= 7,
    ensures
        (r, *final(offset) as int) == slice_long_7bit(
            buf@,
            *old(offset) as int,
            tag_bit,
            prev_byte,
        ),
        *old(offset) <= buf@.len() ==> *final(offset) <= buf@.len(),
        *old(offset) <= *final(offset),
        r matches Ok(v) ==> v >= 0,
{
    if tag_bit == 0 && *offset >= buf.len() {
        return Err(HDiffError::SliceUnderflow);
    }
    if *offset > buf.len() {
        let base: u8 = tag_base_of(tag_bit);
        if (prev_byte / base) % 2 == 0 {
            return Ok((prev_byte % base) as i64);
        }
        return Err(HDiffError::SliceUnderflowMidSequence);
    }
    let (v, end) = decode_varint(buf, *offset, tag_bit, prev_byte, LONG_CAP);
    proof {
        lemma_varint_at_bounds(buf@, *offset as int, tag_bit, prev_byte, LONG_CAP as int);
    }
    *offset = end;
    match v {
        Varint::Value(x) => Ok(x as i64),
        Varint::Overflow => Err(HDiffError::SliceOverflow),
        Varint::Truncated => Err(HDiffError::SliceUnderflowMidSequence),
    }
}

/// The 63-bit integer in `s` at `pos`, and the position behind it.
pub open spec fn slice_long_7bit(s: Seq<u8>, pos: int, tag_bit: u8, prev_byte: u8) -> (
    Result<i64, HDiffError>,
    int,
) {
    if tag_bit == 0 && pos >= s.len() {
        (Err(HDiffError::SliceUnderflow), pos)
    } else {
        let (v, end) = varint_at(s, pos, tag_bit, prev_byte, LONG_CAP as int);
        (
            match v {
                Varint::Value(x) => Ok(x as i64),
                Varint::Overflow => Err(HDiffError::SliceOverflow),
                Varint::Truncated => Err(HDiffError::SliceUnderflowMidSequence),
            },
            end,
        )
    }
}

} // verus!

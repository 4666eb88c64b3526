//! Reading and applying a patch file.

use vstd::prelude::*;
use crate::files::ContentView;
use crate::files::FileContent;
use crate::text::chars_of;
use crate::text::find;
use crate::text::find_from;
use crate::text::is_digit;
use crate::text::parse_decimal;
use crate::text::parse_digits;
use crate::text::split;
use crate::text::split_on;
use super::compression_mode::mode_of_name;
use super::compression_mode::CompressionMode;
use super::error::HDiffError;
use super::header::empty_header_info;
use super::header::DiffChunkInfo;
use super::header::DiffSingleChunkInfo;
use super::header::HeaderInfo;
use super::parser::ByteStream;
use super::parser::StreamView;
use super::patch_core::PatchOutput;
use super::patch_sf::single_stream_output;
use super::patch_sf::PatchSF;
use super::patch_single::sectioned_output;
use super::patch_single::PatchSingle;

verus! {

/// The files of a patch.
pub struct HDiff {
    pub source_path: String,
    pub diff_path: String,
    pub dest_path: String,
}

/// What stands on disk when a patch is applied: whether source and destination
/// are known to be one file, and the source and the patch as they are found.
pub struct PatchInput {
    pub same_file: bool,
    pub source: FileContent,
    pub diff: FileContent,
}

/// `s` from its first decimal digit on.
pub open spec fn from_first_digit(s: Seq<char>) -> Seq<char>
    decreases s.len(),
{
    if s.len() == 0 || is_digit(s[0]) {
        s
    } else {
        from_first_digit(s.drop_first())
    }
}

/// The version in a header: the number behind the marker, whatever stands
/// between the two.
pub open spec fn header_version(s: Seq<char>) -> Result<i64, HDiffError> {
    match find_from(s, "HDIFF"@, 0) {
        None => Err(HDiffError::VersionMarkerMissing),
        Some(i) => match parse_digits(from_first_digit(s.skip(i + 5))) {
            Some(v) => if v <= i64::MAX {
                Ok(v as i64)
            } else {
                Err(HDiffError::VersionInvalid)
            },
            None => Err(HDiffError::VersionInvalid),
        },
    }
}

/// The checksum names that a header may hold.
pub open spec fn known_checksum(s: Seq<char>) -> bool {
    s == "crc32"@ || s == "fadler64"@ || s == "nochecksum"@ || s == "Crc32"@ || s == "Fadler64"@
        || s == "Nochecksum"@
}

/// The version and the compression in the first line of a patch.
pub open spec fn header_line(line: Seq<char>) -> Result<(i64, CompressionMode), HDiffError> {
    let parts = split_on(line, '&');
    if vstd::utf8::encode_utf8(line).len() > 64 || find_from(line, "HDIFF"@, 0) != Some(0int) {
        Err(HDiffError::NotHDiff)
    } else if parts.len() < 2 || parts.len() > 3 {
        Err(HDiffError::HeaderParts(parts.len() as u64))
    } else {
        match header_version(parts[0]) {
            Err(e) => Err(e),
            Ok(v) => if v == 19 {
                Err(HDiffError::DirectoryPatch)
            } else if v != 13 && v != 20 {
                Err(HDiffError::UnsupportedVersion(v))
            } else if parts.len() == 3 && !known_checksum(parts[2]) {
                Err(HDiffError::UnsupportedChecksum)
            } else {
                match mode_of_name(parts[1]) {
                    Some(m) => Ok((v, m)),
                    None => Err(HDiffError::UnsupportedCompression),
                }
            },
        }
    }
}

/// The next `n` integers.
pub open spec fn longs(s: StreamView, n: nat) -> Result<(Seq<i64>, StreamView), HDiffError>
    decreases n,
{
    if n == 0 {
        Ok((Seq::empty(), s))
    } else {
        match longs(s, (n - 1) as nat) {
            Err(e) => Err(e),
            Ok((v, t)) => match t.long_7bit(0, 0) {
                (Ok(x), u) => Ok((v.push(x), u)),
                (Err(e), _) => Err(e),
            },
        }
    }
}

/// The header of a patch in one stream: the new size, the old size, the number
/// of covers, the step size, and the sizes of the stream.
pub open spec fn single_header(s: StreamView, h: HeaderInfo) -> Result<
    (HeaderInfo, StreamView),
    HDiffError,
> {
    match longs(s, 6) {
        Err(e) => Err(e),
        Ok((v, t)) => Ok(
            (
                HeaderInfo {
                    new_data_size: v[0],
                    old_data_size: v[1],
                    chunk_info: DiffChunkInfo { cover_count: v[2], ..h.chunk_info },
                    step_mem_size: v[3],
                    single_chunk_info: DiffSingleChunkInfo {
                        uncompressed_size: v[4],
                        compressed_size: v[5],
                        diff_data_pos: t.pos as i64,
                    },
                    compressed_count: if v[5] > 0 {
                        1
                    } else {
                        0
                    },
                    ..h
                },
                t,
            ),
        ),
    }
}

/// The sizes of the four sections, and where they start.
pub open spec fn chunk_sizes(s: StreamView, type_end_pos: i64) -> Result<
    (DiffChunkInfo, StreamView),
    HDiffError,
> {
    match longs(s, 9) {
        Err(e) => Err(e),
        Ok((v, t)) => {
            let head_end = t.pos as i64;
            let cover_end = head_end + if v[2] > 0 {
                v[2]
            } else {
                v[1]
            };
            if cover_end > i64::MAX {
                Err(HDiffError::CoverEndOverflow)
            } else {
                Ok(
                    (
                        DiffChunkInfo {
                            types_end_pos: type_end_pos,
                            cover_count: v[0],
                            cover_buf_size: v[1],
                            compress_cover_buf_size: v[2],
                            rle_ctrl_buf_size: v[3],
                            compress_rle_ctrl_buf_size: v[4],
                            rle_code_buf_size: v[5],
                            compress_rle_code_buf_size: v[6],
                            new_data_diff_size: v[7],
                            compress_new_data_diff_size: v[8],
                            head_end_pos: head_end,
                            cover_end_pos: cover_end as i64,
                        },
                        t,
                    ),
                )
            }
        },
    }
}

/// One for a size above zero.
pub open spec fn counted(size: i64) -> int {
    if size > 0 {
        1
    } else {
        0
    }
}

/// The header of a sectioned patch: the new size, the old size, and the sizes
/// of the sections.
pub open spec fn sectioned_header(s: StreamView, h: HeaderInfo) -> Result<
    (HeaderInfo, StreamView),
    HDiffError,
> {
    match longs(s, 2) {
        Err(e) => Err(e),
        Ok((v, t)) => match chunk_sizes(t, s.pos as i64) {
            Err(e) => Err(e),
            Ok((ci, u)) => Ok(
                (
                    HeaderInfo {
                        new_data_size: v[0],
                        old_data_size: v[1],
                        chunk_info: ci,
                        compressed_count: (counted(ci.compress_cover_buf_size) + counted(
                            ci.compress_rle_ctrl_buf_size,
                        ) + counted(ci.compress_rle_code_buf_size) + counted(
                            ci.compress_new_data_diff_size,
                        )) as i64,
                        ..h
                    },
                    u,
                ),
            ),
        },
    }
}

/// The whole header of a patch file.
pub open spec fn patch_header(file: Seq<u8>) -> Result<HeaderInfo, HDiffError> {
    let s = StreamView { data: file, pos: 0, damaged: false };
    match s.string_to_null(512) {
        (Err(e), _) => Err(e),
        (Ok(line), t) => match header_line(line) {
            Err(e) => Err(e),
            Ok((version, mode)) => {
                let h = HeaderInfo {
                    comp_mode: mode,
                    is_single_compressed_diff: version == 20,
                    ..empty_header_info()
                };
                let read = if version == 20 {
                    single_header(t, h)
                } else {
                    sectioned_header(t, h)
                };
                match read {
                    Err(e) => Err(e),
                    Ok((full, _)) => Ok(full),
                }
            },
        },
    }
}

/// The new data that a patch file with header `h` makes of the old data, and
/// the totals reported on the way.
pub open spec fn patched(old: Seq<u8>, file: Seq<u8>, h: HeaderInfo) -> Result<
    (Seq<u8>, Seq<u64>),
    HDiffError,
> {
    let made: Result<(Seq<u8>, Seq<u64>), HDiffError> = if h.is_single_compressed_diff {
        match single_stream_output(old, file, h) {
            Ok(s) => Ok((s.out, s.progress)),
            Err(e) => Err(e),
        }
    } else {
        match sectioned_output(old, file, h) {
            Ok(s) => Ok((s.out, s.progress)),
            Err(e) => Err(e),
        }
    };
    match made {
        Err(e) => Err(e),
        Ok((out, progress)) => if out.len() as i64 != h.new_data_size {
            Err(
                HDiffError::OutputSizeMismatch {
                    expected: h.new_data_size,
                    actual: out.len() as i64,
                },
            )
        } else {
            Ok((out, progress))
        },
    }
}

/// What applying a patch comes to. Patching in place is refused. A source file
/// may be missing only for a patch without old data; one that is there has to be
/// readable, and must have the size that the patch was made for.
pub open spec fn patch_result(
    source_path: Seq<char>,
    dest_path: Seq<char>,
    same_file: bool,
    source: ContentView,
    diff: ContentView,
) -> Result<(Seq<u8>, Seq<u64>), HDiffError> {
    if same_file || source_path == dest_path {
        Err(HDiffError::SameFile)
    } else {
        match diff {
            ContentView::Missing => Err(HDiffError::NotFound),
            ContentView::Unreadable(_) => Err(HDiffError::Unreadable),
            ContentView::Bytes(file) => match patch_header(file) {
                Err(e) => Err(e),
                Ok(h) => match source {
                    ContentView::Missing => if h.old_data_size == 0 {
                        patched(Seq::empty(), file, h)
                    } else {
                        Err(HDiffError::NotFound)
                    },
                    ContentView::Unreadable(_) => Err(HDiffError::Unreadable),
                    ContentView::Bytes(old) => if old.len() as i64 != h.old_data_size {
                        Err(
                            HDiffError::InputSizeMismatch {
                                expected: h.old_data_size,
                                actual: old.len() as i64,
                            },
                        )
                    } else {
                        patched(old, file, h)
                    },
                },
            },
        }
    }
}

/// Reads the next `n` integers.
fn read_longs(sr: &mut ByteStream, n: usize) -> (r: Result<Vec<i64>, HDiffError>)
    requires
        old(sr).wf(),
    ensures
        match longs(old(sr)@, n as nat) {
            Ok((v, t)) => {
                &&& r matches Ok(w)
                &&& w@ == v
                &&& w@.len() == n
                &&& forall|i: int| 0 <= i < n ==> w@[i] >= 0
                &&& final(sr)@ == t
                &&& final(sr).wf()
            },
            Err(e) => r matches Err(f) && f == e,
        },
{
    let ghost start = sr@;
    let mut out: Vec<i64> = Vec::new();
    let mut i: usize = 0;
    while i < n
        invariant
            i <= n,
            sr.wf(),
            start == old(sr)@,
            longs(start, i as nat) == Ok::<(Seq<i64>, StreamView), HDiffError>((out@, sr@)),
            out@.len() == i,
            forall|j: int| 0 <= j < i ==> out@[j] >= 0,
        decreases n - i,
    {
        match sr.read_long_7bit() {
            Ok(v) => {
                out.push(v);
            },
            Err(e) => {
                proof {
                    lemma_longs_fail(start, (i + 1) as nat, n as nat);
                }
                return Err(e);
            },
        }
        i += 1;
    }
    Ok(out)
}

/// Once an integer cannot be read, no later one can.
proof fn lemma_longs_fail(s: StreamView, k: nat, n: nat)
    requires
        k <= n,
        longs(s, k) is Err,
    ensures
        longs(s, n) == longs(s, k),
    decreases n,
{
    if k < n {
        lemma_longs_fail(s, k, (n - 1) as nat);
    }
}

impl HDiff {
    pub fn new(source_path: String, diff_path: String, dest_path: String) -> (r: Self)
        ensures
            r.source_path == source_path,
            r.diff_path == diff_path,
            r.dest_path == dest_path,
    {
        HDiff { source_path, diff_path, dest_path }
    }

    /// The version in the first part of a header line.
    pub fn try_get_version(str_val: &str) -> (r: Result<i64, HDiffError>)
        ensures
            r == header_version(str_val@),
    {
        let chars = chars_of(str_val);
        let marker = chars_of("HDIFF");
        proof {
            reveal_strlit("HDIFF");
        }
        let n: usize = chars.len();
        let start: usize = match find(&chars, &marker, 0) {
            Some(i) => i + 5,
            None => return Err(HDiffError::VersionMarkerMissing),
        };
        let mut at: usize = start;
        while at < n && !('0' <= chars[at] && chars[at] <= '9')
            invariant
                start <= at <= n,
                n == chars@.len(),
                from_first_digit(chars@.skip(start as int)) == from_first_digit(
                    chars@.skip(at as int),
                ),
            decreases n - at,
        {
            proof {
                assert(chars@.skip(at as int).drop_first() =~= chars@.skip(at as int + 1));
            }
            at += 1;
        }
        match parse_decimal(&chars, at, i64::MAX as u64) {
            Some(v) => Ok(v as i64),
            None => Err(HDiffError::VersionInvalid),
        }
    }

    /// Reads the first line of a patch.
    pub fn parse_header_line(line: &str) -> (r: Result<(i64, CompressionMode), HDiffError>)
        ensures
            r == header_line(line@),
    {
        let chars = chars_of(line);
        let marker = chars_of("HDIFF");
        if line.as_bytes().len() > 64 {
            return Err(HDiffError::NotHDiff);
        }
        match find(&chars, &marker, 0) {
            Some(0) => {},
            _ => return Err(HDiffError::NotHDiff),
        }
        let parts = split(&chars, '&');
        proof {
            let spec_parts = split_on(line@, '&');
            assert(crate::text::views(parts@).len() == parts@.len());
            assert forall|i: int| 0 <= i < parts@.len() implies #[trigger] parts@[i]@
                == spec_parts[i] by {
                assert(crate::text::views(parts@)[i] == parts@[i]@);
            }
        }
        if parts.len() < 2 || parts.len() > 3 {
            return Err(HDiffError::HeaderParts(parts.len() as u64));
        }
        let version: i64 = HDiff::try_get_version(parts[0].as_str())?;
        if version == 19 {
            return Err(HDiffError::DirectoryPatch);
        }
        if version != 13 && version != 20 {
            return Err(HDiffError::UnsupportedVersion(version));
        }
        if parts.len() == 3 {
            let c = parts[2].as_str();
            if !(*c == *"crc32" || *c == *"fadler64" || *c == *"nochecksum" || *c == *"Crc32"
                || *c == *"Fadler64" || *c == *"Nochecksum") {
                return Err(HDiffError::UnsupportedChecksum);
            }
        }
        match CompressionMode::from_name(parts[1].as_str()) {
            Some(m) => Ok((version, m)),
            None => Err(HDiffError::UnsupportedCompression),
        }
    }

    /// Reads the header of a patch in one stream, behind its first line.
    pub fn read_single_file_header(sr: &mut ByteStream, header_info: &mut HeaderInfo) -> (r: Result<
        (),
        HDiffError,
    >)
        requires
            old(sr).wf(),
        ensures
            match single_header(old(sr)@, *old(header_info)) {
                Ok((h, t)) => {
                    &&& r is Ok
                    &&& *final(header_info) == h
                    &&& final(sr)@ == t
                    &&& final(sr).wf()
                    &&& h.new_data_size >= 0
                    &&& h.old_data_size >= 0
                },
                Err(e) => r == Err::<(), HDiffError>(e),
            },
    {
        let v: Vec<i64> = read_longs(sr, 6)?;
        header_info.new_data_size = v[0];
        header_info.old_data_size = v[1];
        header_info.chunk_info.cover_count = v[2];
        header_info.step_mem_size = v[3];
        header_info.single_chunk_info = DiffSingleChunkInfo {
            uncompressed_size: v[4],
            compressed_size: v[5],
            diff_data_pos: sr.pos as i64,
        };
        header_info.compressed_count = if v[5] > 0 {
            1
        } else {
            0
        };
        Ok(())
    }

    /// Reads the sizes of the sections of a patch.
    pub fn get_diff_chunk_info(
        sr: &mut ByteStream,
        chunk_info: &mut DiffChunkInfo,
        type_end_pos: i64,
    ) -> (r: Result<(), HDiffError>)
        requires
            old(sr).wf(),
        ensures
            match chunk_sizes(old(sr)@, type_end_pos) {
                Ok((ci, t)) => r is Ok && *final(chunk_info) == ci && final(sr)@ == t && final(
                    sr).wf(),
                Err(e) => r == Err::<(), HDiffError>(e),
            },
    {
        let v: Vec<i64> = read_longs(sr, 9)?;
        let head_end: i64 = sr.pos as i64;
        let cover_len: i64 = if v[2] > 0 {
            v[2]
        } else {
            v[1]
        };
        let cover_end: i64 = match head_end.checked_add(cover_len) {
            Some(x) => x,
            None => return Err(HDiffError::CoverEndOverflow),
        };
        *chunk_info = DiffChunkInfo {
            types_end_pos: type_end_pos,
            cover_count: v[0],
            cover_buf_size: v[1],
            compress_cover_buf_size: v[2],
            rle_ctrl_buf_size: v[3],
            compress_rle_ctrl_buf_size: v[4],
            rle_code_buf_size: v[5],
            compress_rle_code_buf_size: v[6],
            new_data_diff_size: v[7],
            compress_new_data_diff_size: v[8],
            head_end_pos: head_end,
            cover_end_pos: cover_end,
        };
        Ok(())
    }

    /// Reads the header of a sectioned patch, behind its first line.
    pub fn read_non_single_file_header(sr: &mut ByteStream, header_info: &mut HeaderInfo) -> (r:
        Result<(), HDiffError>)
        requires
            old(sr).wf(),
        ensures
            match sectioned_header(old(sr)@, *old(header_info)) {
                Ok((h, t)) => {
                    &&& r is Ok
                    &&& *final(header_info) == h
                    &&& final(sr)@ == t
                    &&& final(sr).wf()
                    &&& h.new_data_size >= 0
                    &&& h.old_data_size >= 0
                },
                Err(e) => r == Err::<(), HDiffError>(e),
            },
    {
        let type_end_pos: i64 = sr.pos as i64;
        let v: Vec<i64> = read_longs(sr, 2)?;
        let mut ci = DiffChunkInfo::default();
        HDiff::get_diff_chunk_info(sr, &mut ci, type_end_pos)?;
        header_info.new_data_size = v[0];
        header_info.old_data_size = v[1];
        let a: i64 = if ci.compress_cover_buf_size > 0 { 1 } else { 0 };
        let b: i64 = if ci.compress_rle_ctrl_buf_size > 0 { 1 } else { 0 };
        let c: i64 = if ci.compress_rle_code_buf_size > 0 { 1 } else { 0 };
        let d: i64 = if ci.compress_new_data_diff_size > 0 { 1 } else { 0 };
        header_info.compressed_count = a + b + c + d;
        header_info.chunk_info = ci;
        Ok(())
    }

    /// Reads the header of a patch file.
    pub fn read_header(file: &Vec<u8>) -> (r: Result<HeaderInfo, HDiffError>)
        ensures
            r == patch_header(file@),
            r matches Ok(h) ==> h.new_data_size >= 0 && h.old_data_size >= 0,
    {
        let mut sr = ByteStream::new(vstd::slice::slice_to_vec(file.as_slice()));
        let line = sr.read_string_to_null(512)?;
        let (version, mode) = HDiff::parse_header_line(line.as_str())?;
        let mut h = HeaderInfo::default();
        h.comp_mode = mode;
        h.is_single_compressed_diff = version == 20;
        if version == 20 {
            HDiff::read_single_file_header(&mut sr, &mut h)?;
        } else {
            HDiff::read_non_single_file_header(&mut sr, &mut h)?;
        }
        Ok(h)
    }

    /// Applies the patch to what stands on disk.
    pub fn apply_inner(&self, input: &PatchInput) -> (r: Result<PatchOutput, HDiffError>)
        ensures
            match patch_result(
                self.source_path@,
                self.dest_path@,
                input.same_file,
                input.source@,
                input.diff@,
            ) {
                Ok((data, progress)) => r matches Ok(o) && o.data@ == data && o.progress@
                    == progress,
                Err(e) => r matches Err(f) && f == e,
            },
    {
        if input.same_file || self.source_path == self.dest_path {
            return Err(HDiffError::SameFile);
        }
        let file = match &input.diff {
            FileContent::Bytes(f) => f,
            FileContent::Missing => return Err(HDiffError::NotFound),
            FileContent::Unreadable(_) => return Err(HDiffError::Unreadable),
        };
        let h = HDiff::read_header(file)?;
        match &input.source {
            FileContent::Missing => {
                if h.old_data_size != 0 {
                    return Err(HDiffError::NotFound);
                }
                let empty: Vec<u8> = Vec::new();
                HDiff::make_new_data(&empty, file, h)
            },
            FileContent::Unreadable(_) => Err(HDiffError::Unreadable),
            FileContent::Bytes(old) => {
                let actual: i64 = old.len() as i64;
                if actual != h.old_data_size {
                    return Err(
                        HDiffError::InputSizeMismatch { expected: h.old_data_size, actual },
                    );
                }
                HDiff::make_new_data(old, file, h)
            },
        }
    }

    fn make_new_data(old: &Vec<u8>, file: &Vec<u8>, h: HeaderInfo) -> (r: Result<
        PatchOutput,
        HDiffError,
    >)
        ensures
            match patched(old@, file@, h) {
                Ok((data, progress)) => r matches Ok(o) && o.data@ == data && o.progress@
                    == progress,
                Err(e) => r matches Err(f) && f == e,
            },
    {
        let out = if h.is_single_compressed_diff {
            PatchSF::new(h).patch(old, Some(file))?
        } else {
            PatchSingle::new(h).patch(old, Some(file))?
        };
        let actual: i64 = out.data.len() as i64;
        if actual != h.new_data_size {
            return Err(HDiffError::OutputSizeMismatch { expected: h.new_data_size, actual });
        }
        Ok(out)
    }

    /// Applies the patch to what stands on disk; nothing when it cannot be
    /// applied.
    pub fn apply(&self, input: &PatchInput) -> (r: Option<PatchOutput>)
        ensures
            match patch_result(
                self.source_path@,
                self.dest_path@,
                input.same_file,
                input.source@,
                input.diff@,
            ) {
                Ok((data, progress)) => r matches Some(o) && o.data@ == data && o.progress@
                    == progress,
                Err(_) => r is None,
            },
    {
        match self.apply_inner(input) {
            Ok(o) => Some(o),
            Err(_) => None,
        }
    }
}

} // verus!

//! Files against the hashes that are stated for them.

use vstd::prelude::*;
use crate::digest::equal_ignoring_case;
use crate::digest::md5_hex;
use crate::digest::md5_hex_of;
use crate::digest::same_ignoring_case;
use crate::digest::xxh64_hex;
use crate::digest::xxh64_hex_of;
use crate::text::chars_of;

verus! {

/// What a file holds, where it could be read.
pub open spec fn content_of(content: Option<&Vec<u8>>) -> Option<Seq<u8>> {
    match content {
        Some(data) => Some(data@),
        None => None,
    }
}

/// The file holds data with the MD5 `expected`, in upper or lower case.
pub open spec fn has_md5(content: Option<Seq<u8>>, expected: Seq<char>) -> bool {
    content matches Some(data) && same_ignoring_case(md5_hex_of(data), expected)
}

/// The file holds data with the xxHash `expected`, in upper or lower case.
pub open spec fn has_xxh64(content: Option<Seq<u8>>, expected: Seq<char>) -> bool {
    content matches Some(data) && same_ignoring_case(xxh64_hex_of(data), expected)
}

/// The file holds data with the hash `expected`: an MD5 or an xxHash, as its
/// length tells. Nothing is asked of a file without a stated hash.
pub open spec fn has_hash(content: Option<Seq<u8>>, expected: Seq<char>) -> bool {
    if expected.len() == 0 {
        true
    } else if expected.len() == 32 {
        has_md5(content, expected)
    } else if expected.len() == 16 {
        has_xxh64(content, expected)
    } else {
        false
    }
}

/// Whether a file has the MD5 `expected`.
pub fn verify_chunk_md5(content: Option<&Vec<u8>>, expected_md5: &str) -> (r: bool)
    ensures
        r == has_md5(content_of(content), expected_md5@),
{
    match content {
        Some(data) => {
            let actual = md5_hex(data);
            equal_ignoring_case(actual.as_str(), expected_md5)
        },
        None => false,
    }
}

/// Whether a file has the xxHash `expected`.
pub fn verify_chunk_xxh64(content: Option<&Vec<u8>>, expected_xxh64: &str) -> (r: bool)
    ensures
        r == has_xxh64(content_of(content), expected_xxh64@),
{
    match content {
        Some(data) => {
            let actual = xxh64_hex(data);
            equal_ignoring_case(actual.as_str(), expected_xxh64)
        },
        None => false,
    }
}

/// Whether a file has the hash `expected`.
pub fn verify_file_hash(content: Option<&Vec<u8>>, expected_hash: &str) -> (r: bool)
    ensures
        r == has_hash(content_of(content), expected_hash@),
{
    let n: usize = chars_of(expected_hash).len();
    if n == 0 {
        true
    } else if n == 32 {
        verify_chunk_md5(content, expected_hash)
    } else if n == 16 {
        verify_chunk_xxh64(content, expected_hash)
    } else {
        false
    }
}

/// The file is what the next version has in its place. `size` is its size, where
/// there is such a file, and `content` what it holds, where it could be read.
pub open spec fn is_patched(
    size: Option<u64>,
    content: Option<Seq<u8>>,
    expected_size: u64,
    hash: Seq<char>,
) -> bool {
    size == Some(expected_size) && has_hash(content, hash)
}

/// Whether the file is what the next version has in its place.
pub fn is_file_already_patched(
    size: Option<u64>,
    content: Option<&Vec<u8>>,
    expected_size: u64,
    expected_hash: &str,
) -> (r: bool)
    ensures
        r == is_patched(size, content_of(content), expected_size, expected_hash@),
{
    match size {
        Some(n) => {
            if n != expected_size {
                return false;
            }
            verify_file_hash(content, expected_hash)
        },
        None => false,
    }
}

/// A hash may be stated in upper or lower case.
pub proof fn law_case_of_a_hash_is_immaterial(
    content: Option<Seq<u8>>,
    a: Seq<char>,
    b: Seq<char>,
)
    requires
        same_ignoring_case(a, b),
    ensures
        has_hash(content, a) == has_hash(content, b),
{
    assert(crate::text::lower_chars(a).len() == a.len());
    assert(crate::text::lower_chars(b).len() == b.len());
}

/// A file has at most one hash of each length, its own hash is one, and a hash of
/// another length or one of a file that cannot be read never matches.
pub proof fn law_hashes_tell_files_apart(data: Seq<u8>, a: Seq<char>, b: Seq<char>)
    ensures
        a.len() > 0 && a.len() == b.len() && has_hash(Some(data), a) && has_hash(Some(data), b)
            ==> same_ignoring_case(a, b),
        has_hash(None, a) <==> a.len() == 0,
        has_hash(Some(data), a) ==> a.len() == 0 || a.len() == 16 || a.len() == 32,
        md5_hex_of(data).len() == 32 ==> has_hash(Some(data), md5_hex_of(data)),
        xxh64_hex_of(data).len() == 16 ==> has_hash(Some(data), xxh64_hex_of(data)),
        a.len() == 0 ==> has_hash(Some(data), a),
{
}

/// A file is taken for the one of the next version only where its size and its
/// hash agree with what is stated, and always where they do.
pub proof fn law_only_the_stated_file_counts(
    size: Option<u64>,
    content: Option<Seq<u8>>,
    other: u64,
    expected: u64,
    hash: Seq<char>,
)
    ensures
        is_patched(size, content, expected, hash) && is_patched(size, content, other, hash)
            ==> expected == other,
        is_patched(size, content, expected, hash) ==> size == Some(expected) && has_hash(
            content,
            hash,
        ),
        has_hash(content, hash) ==> is_patched(Some(expected), content, expected, hash),
        !is_patched(None, content, expected, hash),
{
}

} // verus!

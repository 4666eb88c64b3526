//! Checksums, and bytes and numbers in base sixteen.

use vstd::prelude::*;
use crate::text::lower_chars;
use crate::text::to_lower_chars;

verus! {

/// The SHA-256 digest of `data`.
pub uninterp spec fn sha256_of(data: Seq<u8>) -> Seq<u8>;

/// The MD5 digest of `data`.
pub uninterp spec fn md5_of(data: Seq<u8>) -> Seq<u8>;

/// The 64-bit xxHash of `data`.
pub uninterp spec fn xxh64_of(data: Seq<u8>, seed: u64) -> u64;

/// `sha2::Sha256::digest`: 32 bytes that depend on the data alone.
#[verifier::external_body]
fn sha256(data: &[u8]) -> (r: Vec<u8>)
    ensures
        r@ == sha256_of(data@),
        r@.len() == 32,
{
    <sha2::Sha256 as sha2::Digest>::digest(data).to_vec()
}

/// `md5::Md5::digest`: 16 bytes that depend on the data alone.
#[verifier::external_body]
fn md5(data: &[u8]) -> (r: Vec<u8>)
    ensures
        r@ == md5_of(data@),
        r@.len() == 16,
{
    <md5::Md5 as md5::Digest>::digest(data).to_vec()
}

/// `xxhash_rust::xxh64::xxh64`: a number that depends on the data and the seed
/// alone.
#[verifier::external_body]
fn xxh64(data: &[u8], seed: u64) -> (r: u64)
    ensures
        r == xxh64_of(data@, seed),
{
    xxhash_rust::xxh64::xxh64(data, seed)
}

/// The lower-case digit for `d` in base sixteen.
pub open spec fn hex_digit(d: int) -> char {
    if d == 10 {
        'a'
    } else if d == 11 {
        'b'
    } else if d == 12 {
        'c'
    } else if d == 13 {
        'd'
    } else if d == 14 {
        'e'
    } else if d >= 15 {
        'f'
    } else {
        crate::text::digit_char(d)
    }
}

/// Each byte of `data` as two lower-case digits in base sixteen.
pub open spec fn hex_chars(data: Seq<u8>) -> Seq<char> {
    Seq::new(
        2 * data.len(),
        |i: int|
            hex_digit(
                if i % 2 == 0 {
                    data[i / 2] as int / 16
                } else {
                    data[i / 2] as int % 16
                },
            ),
    )
}

/// `hex::encode` writes each byte as two lower-case digits in base sixteen.
#[verifier::external_body]
fn hex_encode(data: &[u8]) -> (r: String)
    ensures
        r@ == hex_chars(data@),
{
    hex::encode(data)
}

/// The last `n` digits of `x` in base sixteen.
pub open spec fn hex_number(x: nat, n: nat) -> Seq<char>
    decreases n,
{
    if n == 0 {
        Seq::empty()
    } else {
        hex_number(x / 16, (n - 1) as nat).push(hex_digit((x % 16) as int))
    }
}

fn digit_in_hex(d: u64) -> (r: char)
    requires
        d < 16,
    ensures
        r == hex_digit(d as int),
{
    match d {
        0 => '0',
        1 => '1',
        2 => '2',
        3 => '3',
        4 => '4',
        5 => '5',
        6 => '6',
        7 => '7',
        8 => '8',
        9 => '9',
        10 => 'a',
        11 => 'b',
        12 => 'c',
        13 => 'd',
        14 => 'e',
        _ => 'f',
    }
}

/// Appends the last `n` digits of `x` in base sixteen to `out`.
pub fn push_hex_number(out: &mut String, x: u64, n: usize)
    ensures
        final(out)@ == old(out)@ + hex_number(x as nat, n as nat),
    decreases n,
{
    if n > 0 {
        push_hex_number(out, x / 16, n - 1);
        out.push(digit_in_hex(x % 16));
    }
    assert(old(out)@ + hex_number(x as nat, n as nat) =~= final(out)@);
}

/// The short name of some data: the first eight bytes of its SHA-256 digest in
/// base sixteen.
pub open spec fn short_hash_of(data: Seq<u8>) -> Seq<char> {
    hex_chars(sha256_of(data).take(8))
}

/// The short name of `data`.
pub fn short_hash(data: &Vec<u8>) -> (r: String)
    ensures
        r@ == short_hash_of(data@),
        r@.len() == 16,
{
    let mut full = sha256(data.as_slice());
    full.truncate(8);
    hex_encode(full.as_slice())
}

/// The MD5 digest of `data` in base sixteen.
pub open spec fn md5_hex_of(data: Seq<u8>) -> Seq<char> {
    hex_chars(md5_of(data))
}

/// The MD5 digest of `data` in base sixteen.
pub fn md5_hex(data: &Vec<u8>) -> (r: String)
    ensures
        r@ == md5_hex_of(data@),
        r@.len() == 32,
{
    let full = md5(data.as_slice());
    hex_encode(full.as_slice())
}

/// The xxHash of `data`, without a seed, as sixteen digits.
pub open spec fn xxh64_hex_of(data: Seq<u8>) -> Seq<char> {
    hex_number(xxh64_of(data, 0) as nat, 16)
}

/// The xxHash of `data`, without a seed, as sixteen digits.
pub fn xxh64_hex(data: &Vec<u8>) -> (r: String)
    ensures
        r@ == xxh64_hex_of(data@),
{
    let mut out = String::new();
    push_hex_number(&mut out, xxh64(data.as_slice(), 0), 16);
    assert(Seq::<char>::empty() + xxh64_hex_of(data@) =~= xxh64_hex_of(data@));
    out
}

/// `a` and `b` are the same but for the case of ASCII letters.
pub open spec fn same_ignoring_case(a: Seq<char>, b: Seq<char>) -> bool {
    lower_chars(a) == lower_chars(b)
}

/// Whether `a` and `b` are the same but for the case of ASCII letters.
pub fn equal_ignoring_case(a: &str, b: &str) -> (r: bool)
    ensures
        r == same_ignoring_case(a@, b@),
{
    let x = to_lower_chars(a);
    let y = to_lower_chars(b);
    let n: usize = x.len();
    if n != y.len() {
        return false;
    }
    let mut i: usize = 0;
    while i < n
        invariant
            i <= n,
            n == x@.len(),
            n == y@.len(),
            x@ == lower_chars(a@),
            y@ == lower_chars(b@),
            forall|j: int| 0 <= j < i ==> x@[j] == y@[j],
        decreases n - i,
    {
        if x[i] != y[i] {
            return false;
        }
        i += 1;
    }
    assert(x@ =~= y@);
    true
}

} // verus!

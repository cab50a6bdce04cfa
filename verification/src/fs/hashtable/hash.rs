//! Names in the hash table: FNV-1a hashing, encoding and decoding of the 40-byte name field.

use vstd::prelude::*;
use vstd::utf8::{valid_utf8, decode_utf8};
use vstd::string::StringSliceAdditionalSpecFns;
use super::{FILENAME_LEN, HashFsError};
use crate::fs::lemonfs::path::str_eq;
use crate::text::str_from_utf8;

verus! {

/// The FNV offset basis that the table starts each hash from.
pub const FNV_OFFSET: u64 = 0x811C9DC5;

/// The FNV prime that each step multiplies by.
pub const FNV_PRIME: u64 = 0x1000193;

/// FNV-1a over `s`: xor each byte in, then multiply by the prime modulo 2^64.
pub open spec fn fnv1a(s: Seq<u8>) -> u64
    decreases s.len(),
{
    if s.len() == 0 {
        FNV_OFFSET
    } else {
        vstd::wrapping::u64_specs::wrapping_mul(fnv1a(s.drop_last()) ^ (s.last() as u64), FNV_PRIME)
    }
}

/// `n` is where the name stored in `b` ends: the first zero byte.
pub open spec fn is_name_end(b: Seq<u8>, n: int) -> bool {
    &&& 0 <= n < b.len()
    &&& b[n] == 0
    &&& forall|j: int| 0 <= j < n ==> b[j] != 0
}

/// The length of the name stored in `b`: up to its first zero byte, or the whole field.
pub open spec fn name_len(b: Seq<u8>) -> int {
    if exists|n: int| is_name_end(b, n) {
        choose|n: int| is_name_end(b, n)
    } else {
        FILENAME_LEN as int
    }
}

/// The text of the name stored in `b`: its bytes up to the end, or nothing if they are not UTF-8.
pub open spec fn name_text(b: Seq<u8>) -> Seq<char> {
    let p = b.subrange(0, name_len(b));
    if valid_utf8(p) { decode_utf8(p) } else { Seq::empty() }
}

/// `s` padded with zeros to the field's length (longer input is cut short).
pub open spec fn padded_name(s: Seq<u8>) -> Seq<u8> {
    Seq::new(FILENAME_LEN as nat, |i: int| if i < s.len() { s[i] } else { 0u8 })
}

/// The end of a name is unique.
proof fn lemma_name_end_unique(b: Seq<u8>, n: int, m: int)
    requires
        is_name_end(b, n),
        is_name_end(b, m),
    ensures
        n == m,
{
    if n < m {
        assert(b[n] != 0);
    } else if m < n {
        assert(b[m] != 0);
    }
}

/// FNV-1a hash of a 40-byte name field.
pub fn name_to_hash(name: &[u8; FILENAME_LEN]) -> (r: u64)
    ensures
        r == fnv1a(name@),
{
    let mut hash: u64 = FNV_OFFSET;
    let mut i: usize = 0;
    while i < FILENAME_LEN
        invariant
            i <= FILENAME_LEN,
            hash == fnv1a(name@.subrange(0, i as int)),
        decreases FILENAME_LEN - i,
    {
        proof {
            assert(name@.subrange(0, i + 1).drop_last() =~= name@.subrange(0, i as int));
        }
        hash = (hash ^ (name[i] as u64)).wrapping_mul(FNV_PRIME);
        i = i + 1;
    }
    assert(name@.subrange(0, FILENAME_LEN as int) =~= name@);
    hash
}

/// Copies `src` into a zeroed name field (at most the field's length).
pub(crate) fn pad_name(src: &[u8]) -> (r: [u8; FILENAME_LEN])
    ensures
        r@ == padded_name(src@),
{
    let mut bytes = [0u8; FILENAME_LEN];
    let n = if src.len() < FILENAME_LEN { src.len() } else { FILENAME_LEN };
    let mut i: usize = 0;
    while i < n
        invariant
            n <= FILENAME_LEN,
            n <= src@.len(),
            n == FILENAME_LEN || n == src@.len(),
            i <= n,
            bytes@.len() == FILENAME_LEN,
            forall|j: int| 0 <= j < i ==> bytes@[j] == src@[j],
            forall|j: int| i <= j < FILENAME_LEN ==> bytes@[j] == 0u8,
        decreases n - i,
    {
        bytes[i] = src[i];
        i = i + 1;
    }
    assert(bytes@ =~= padded_name(src@));
    bytes
}

/// The name field of `name`: its bytes padded with zeros. An empty name, or one longer than
/// the field, is refused.
pub fn name_to_bytes(name: &str) -> (r: Result<[u8; FILENAME_LEN], HashFsError>)
    ensures
        (name.spec_bytes().len() == 0 || name.spec_bytes().len() > FILENAME_LEN)
            ==> r == Err::<[u8; FILENAME_LEN], HashFsError>(HashFsError::InvalidFilename),
        (0 < name.spec_bytes().len() <= FILENAME_LEN) ==> (r matches Ok(b) && b@ == padded_name(name.spec_bytes())),
{
    let bytes = name.as_bytes();
    if bytes.len() == 0 || bytes.len() > FILENAME_LEN {
        return Err(HashFsError::InvalidFilename);
    }
    Ok(pad_name(bytes))
}

/// The length of the name in `bytes`: the index of the first zero byte, or the field's length.
pub fn stored_name_len(bytes: &[u8]) -> (r: usize)
    ensures
        r == name_len(bytes@),
{
    let mut i: usize = 0;
    while i < bytes.len()
        invariant
            i <= bytes@.len(),
            forall|j: int| 0 <= j < i ==> bytes@[j] != 0,
        decreases bytes@.len() - i,
    {
        if bytes[i] == 0 {
            proof {
                assert(is_name_end(bytes@, i as int));
                let n = choose|n: int| is_name_end(bytes@, n);
                lemma_name_end_unique(bytes@, n, i as int);
            }
            return i;
        }
        i = i + 1;
    }
    assert(!exists|n: int| is_name_end(bytes@, n));
    FILENAME_LEN
}

/// The name stored in `bytes` as text: the bytes up to the first zero (or the whole field),
/// or the empty string when they are not UTF-8.
pub fn bytes_to_name(bytes: &[u8]) -> (r: &str)
    requires
        name_len(bytes@) <= bytes@.len(),
    ensures
        r@ == name_text(bytes@),
{
    let len = stored_name_len(bytes);
    let prefix = vstd::slice::slice_subrange(bytes, 0, len);
    match str_from_utf8(prefix) {
        Some(s) => s,
        None => {
            let empty = "";
            proof {
                reveal_strlit("");
            }
            empty
        },
    }
}

/// The hash of a name given as text: its first 40 bytes, padded with zeros.
pub fn hash_name(name: &str) -> (r: u64)
    ensures
        r == fnv1a(padded_name(name.spec_bytes())),
{
    let bytes = pad_name(name.as_bytes());
    name_to_hash(&bytes)
}

/// The name stored in `bytes`, as an owned string.
pub fn name_to_str(bytes: &[u8]) -> (r: String)
    requires
        name_len(bytes@) <= bytes@.len(),
    ensures
        r@ == name_text(bytes@),
{
    bytes_to_name(bytes).to_owned()
}

/// Whether the name stored in `bytes` reads as `expected`.
pub fn name_eq(bytes: &[u8], expected: &str) -> (r: bool)
    requires
        name_len(bytes@) <= bytes@.len(),
    ensures
        r == (name_text(bytes@) == expected@),
{
    str_eq(bytes_to_name(bytes), expected)
}

} // verus!

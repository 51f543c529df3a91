//! What reading gives back of what was written: the little endian
//! integers, the varints, and the length prefixed byte strings and strings
//! that a write cursor produces are what a read cursor finds at the same
//! position, whatever bytes precede or follow them.
use vstd::prelude::*;
use vstd::bytes::*;
use vstd::utf8::*;

use crate::error::ErrorKind;
use crate::prim::varint::{lemma_varint_roundtrip, varint_encode};
use crate::prim::write::prefixed;

verus! {

/// A 32-bit integer written in little endian order reads back unchanged.
pub proof fn lemma_u32_le_roundtrip(before: Seq<u8>, n: u32, after: Seq<u8>)
    ensures
        spec_u32_from_le_bytes((before + spec_u32_to_le_bytes(n) + after).subrange(
            before.len() as int,
            before.len() + 4int,
        )) == n,
{
    lemma_auto_spec_u32_to_from_le_bytes();
    assert((before + spec_u32_to_le_bytes(n) + after).subrange(before.len() as int, before.len() + 4int)
        =~= spec_u32_to_le_bytes(n));
}

/// A 64-bit integer written in little endian order reads back unchanged.
pub proof fn lemma_u64_le_roundtrip(before: Seq<u8>, n: u64, after: Seq<u8>)
    ensures
        spec_u64_from_le_bytes((before + spec_u64_to_le_bytes(n) + after).subrange(
            before.len() as int,
            before.len() + 8int,
        )) == n,
{
    lemma_auto_spec_u64_to_from_le_bytes();
    assert((before + spec_u64_to_le_bytes(n) + after).subrange(before.len() as int, before.len() + 8int)
        =~= spec_u64_to_le_bytes(n));
}

/// A length prefixed byte string reads back unchanged: its prefix decodes
/// to its length, and the bytes after the prefix are the ones written.
pub proof fn lemma_prefixed_roundtrip(bytes: Seq<u8>, after: Seq<u8>)
    requires
        bytes.len() <= u64::MAX,
    ensures
        ({
            let s = prefixed(bytes) + after;
            let k = varint_encode(bytes.len() as u64).len();
            &&& varint_decode_ok(s, bytes.len() as u64, k)
            &&& k + bytes.len() <= s.len()
            &&& s.subrange(k as int, (k + bytes.len()) as int) == bytes
        }),
{
    let k = varint_encode(bytes.len() as u64).len();
    let s = prefixed(bytes) + after;
    lemma_varint_roundtrip(bytes.len() as u64, bytes + after);
    assert(s =~= varint_encode(bytes.len() as u64) + (bytes + after));
    assert(s.subrange(k as int, (k + bytes.len()) as int) =~= bytes);
}

/// The varint at the start of `s` has value `v` and occupies `k` bytes.
pub open spec fn varint_decode_ok(s: Seq<u8>, v: u64, k: nat) -> bool {
    crate::prim::varint::varint_decode(s) == Ok::<(u64, nat), ErrorKind>((v, k))
}

/// The bytes of a string are valid UTF-8, and a string made of the same
/// bytes is the same string.
pub proof fn lemma_utf8_roundtrip(chars: Seq<char>, other: Seq<char>)
    ensures
        valid_utf8(encode_utf8(chars)),
        encode_utf8(other) == encode_utf8(chars) ==> other == chars,
{
    encode_utf8_valid_utf8(chars);
    encode_utf8_decode_utf8(chars);
    encode_utf8_decode_utf8(other);
}

} // verus!

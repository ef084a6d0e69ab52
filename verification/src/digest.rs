//! The hasher used for storage `Hash` queries and for merkle values: the
//! block's trie hasher, blake2b with a 256-bit output. The digest of a byte
//! string is a pure function of those bytes; it is named here and never
//! spelled out.

use vstd::prelude::*;

verus! {

/// The 32-byte blake2b-256 digest of a byte string.
pub uninterp spec fn blake2_256_of(b: Seq<u8>) -> Seq<u8>;

/// Relies on sp_core::Blake2Hasher (hash_db::Hasher with blake2b-256): the
/// digest depends on the input bytes alone and is exactly 32 bytes long.
#[verifier::external_body]
pub fn blake2_256(bytes: &Vec<u8>) -> (r: Vec<u8>)
    ensures
        r@ == blake2_256_of(bytes@),
        r@.len() == 32,
{
    <sp_core::Blake2Hasher as sp_core::Hasher>::hash(bytes.as_slice()).as_bytes().to_vec()
}

} // verus!

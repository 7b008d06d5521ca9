//! The hash primitive: SHA3-256 in two roles, leaf hashing of one raw item
//! and internal hashing of two concatenated child digests.
use vstd::prelude::*;

verus! {

/// The digest that SHA3-256 assigns to a byte sequence; its value is fixed by
/// the hash function alone, so it is left abstract here.
pub uninterp spec fn sha3_of(data: Seq<u8>) -> Seq<u8>;

/// Relies on sha3::Sha3_256 (via the digest traits): hashing is a pure
/// function of the input bytes and always yields a 32-byte digest.
#[verifier::external_body]
fn sha3_bytes(data: &[u8]) -> (r: Vec<u8>)
    ensures
        r@ == sha3_of(data@),
        r@.len() == 32,
{
    let digest = <sha3::Sha3_256 as sha3::Digest>::digest(data);
    digest.as_slice().to_vec()
}

/// Leaf-mode hashing: the digest of one raw item.
pub fn _sha3(input: &[u8]) -> (r: Vec<u8>)
    ensures
        r@ == sha3_of(input@),
        r@.len() == 32,
{
    sha3_bytes(input)
}

/// A fresh byte vector with the same contents as the given byte string.
pub fn copy_bytes(src: &[u8]) -> (r: Vec<u8>)
    ensures
        r@ == src@,
{
    let mut out: Vec<u8> = Vec::new();
    let mut i: usize = 0;
    while i < src.len()
        invariant
            i <= src@.len(),
            out@ == src@.take(i as int),
        decreases src@.len() - i,
    {
        out.push(src[i]);
        proof {
            assert(src@.take(i + 1) =~= src@.take(i as int).push(src@[i as int]));
        }
        i = i + 1;
    }
    assert(out@ =~= src@);
    out
}

/// Internal-mode hashing: the digest of the two child digests concatenated in
/// left-then-right order and hashed as a single message.
pub fn _sha3_leaves(leaf_hash_1: &[u8], leaf_hash_2: &[u8]) -> (r: Vec<u8>)
    ensures
        r@ == sha3_of(leaf_hash_1@ + leaf_hash_2@),
        r@.len() == 32,
{
    let mut combined = copy_bytes(leaf_hash_1);
    let mut tail = copy_bytes(leaf_hash_2);
    combined.append(&mut tail);
    assert(combined@ == leaf_hash_1@ + leaf_hash_2@);
    sha3_bytes(combined.as_slice())
}

/// Byte-for-byte equality of two byte strings.
pub fn bytes_eq(a: &[u8], b: &[u8]) -> (r: bool)
    ensures
        r == (a@ == b@),
{
    if a.len() != b.len() {
        assert(a@ != b@);
        return false;
    }
    let mut i: usize = 0;
    while i < a.len()
        invariant
            i <= a@.len(),
            a@.len() == b@.len(),
            forall|k: int| 0 <= k < i ==> a@[k] == b@[k],
        decreases a@.len() - i,
    {
        if a[i] != b[i] {
            return false;
        }
        i = i + 1;
    }
    assert(a@ =~= b@);
    true
}

} // verus!

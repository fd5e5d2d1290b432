//! Strong hashes: the sixteen bytes of an MD5 digest.
use crypto::digest::Digest;
use crypto::md5::Md5;
use vstd::prelude::*;

verus! {

/// The MD5 digest of `data`, as `crypto::md5::Md5` computes it.
pub uninterp spec fn md5_digest(data: Seq<u8>) -> [u8; 16];

/// Feeds `front` and then `back` to a fresh `crypto::md5::Md5` through
/// `Digest::input` and takes the sixteen bytes that `Digest::result` writes.
/// The hasher buffers its input, so the digest is that of the two slices
/// joined.
#[verifier::external_body]
pub(crate) fn strong_hash_of(front: &[u8], back: &[u8]) -> (digest: [u8; 16])
    ensures
        digest == md5_digest(front@ + back@),
{
    let mut hasher = Md5::new();
    hasher.input(front);
    hasher.input(back);
    let mut digest = [0u8; 16];
    hasher.result(&mut digest);
    digest
}

/// Whether two strong hashes hold the same bytes.
pub(crate) fn same_strong(left: &[u8; 16], right: &[u8; 16]) -> (same: bool)
    ensures
        same <==> *left == *right,
{
    let mut i: usize = 0;
    while i < 16
        invariant
            i <= 16,
            forall|k: int| 0 <= k < i ==> left@[k] == right@[k],
        decreases 16 - i,
    {
        if left[i] != right[i] {
            return false;
        }
        i = i + 1;
    }
    assert(left@ =~= right@);
    assert(*left =~= *right);
    true
}

/// The strong hash whose bytes are the first sixteen of `bytes`.
pub open spec fn strong_from(bytes: Seq<u8>) -> [u8; 16]
    recommends
        bytes.len() >= 16,
{
    [
        bytes[0],
        bytes[1],
        bytes[2],
        bytes[3],
        bytes[4],
        bytes[5],
        bytes[6],
        bytes[7],
        bytes[8],
        bytes[9],
        bytes[10],
        bytes[11],
        bytes[12],
        bytes[13],
        bytes[14],
        bytes[15],
    ]
}

/// Reading a strong hash back from its own bytes gives the same hash.
pub proof fn lemma_strong_from_own_bytes(strong: [u8; 16], rest: Seq<u8>)
    ensures
        strong_from(strong@ + rest) == strong,
{
    let again = strong_from(strong@ + rest);
    assert(again@ =~= strong@);
    assert(again =~= strong);
}

/// Copies sixteen bytes into a strong hash.
pub(crate) fn strong_of_bytes(bytes: &Vec<u8>) -> (strong: [u8; 16])
    requires
        bytes@.len() == 16,
    ensures
        strong == strong_from(bytes@),
{
    let mut strong = [0u8; 16];
    let mut i: usize = 0;
    while i < 16
        invariant
            i <= 16,
            bytes@.len() == 16,
            forall|k: int| 0 <= k < i ==> strong@[k] == bytes@[k],
        decreases 16 - i,
    {
        strong[i] = bytes[i];
        i = i + 1;
    }
    assert(strong@ =~= strong_from(bytes@)@);
    assert(strong =~= strong_from(bytes@));
    strong
}

} // verus!

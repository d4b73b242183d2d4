//! Distinct documents: the key by which near-identical hits are grouped.

use vstd::prelude::*;
use siphasher::sip::SipHasher;

verus! {

/// The SipHash-2-4 of `bytes` under the key of sixteen zero bytes.
pub uninterp spec fn sip_hash(bytes: Seq<u8>) -> u64;

/// `SipHasher::new` keys the hasher with zeros, and `SipHasher::hash` is the
/// SipHash-2-4 of the bytes it is given under that key. The number that
/// results depends on `bytes` alone.
#[verifier::external_body]
fn sip_hash_of(bytes: &[u8]) -> (hash: u64)
    ensures
        hash == sip_hash(bytes@),
{
    SipHasher::new().hash(bytes)
}

/// The key by which the ranking engine groups a document: the hash of the
/// raw bytes of its distinct attribute. Documents with the same bytes get the
/// same key. A document without the attribute gets none, and is never taken
/// for the duplicate of another.
pub fn distinct_key(attribute_bytes: Option<&[u8]>) -> (key: Option<u64>)
    ensures
        match attribute_bytes {
            Some(bytes) => key == Some(sip_hash(bytes@)),
            None => key is None,
        },
{
    match attribute_bytes {
        Some(bytes) => Some(sip_hash_of(bytes)),
        None => None,
    }
}

} // verus!

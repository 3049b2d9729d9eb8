//! Preimage keys and the lookup buffers they are digests of.

use crate::digest::{keccak256, keccak_of};
use vstd::prelude::*;

verus! {

/// Bytes in one field element, the atomic unit of a data-availability blob.
pub const BYTES_PER_FIELD_ELEMENT: usize = 32;

/// Bytes in one coordinate of a commitment point.
pub const COORDINATE_LEN: usize = 32;

/// A field-element lookup buffer: x (32) ‖ y (32) ‖ 32 bytes of padding. An
/// EIP-4844 key is 80 bytes with a 48-byte commitment; the commitment point
/// here takes 64 bytes, so the buffer is widened to 96.
pub const FIELD_ELEMENT_LOOKUP_LEN: usize = 96;

/// The last eight bytes of a field-element lookup buffer carry the element
/// index in big-endian order.
pub const INDEX_OFFSET: usize = 88;

/// The two namespaces of the preimage oracle.
#[derive(Clone, Copy, Debug, PartialEq, Eq, Structural)]
pub enum PreimageKeyType {
    /// The digest maps to the lookup buffer it is the digest of.
    Keccak256,
    /// The digest maps to a payload: a field element, a proof or a commitment.
    GlobalGeneric,
}

/// A key of the preimage oracle: a namespace and a 32-byte digest.
#[derive(Clone, Debug)]
pub struct PreimageKey {
    pub key_type: PreimageKeyType,
    pub digest: Vec<u8>,
}

impl View for PreimageKey {
    type V = (PreimageKeyType, Seq<u8>);

    open spec fn view(&self) -> (PreimageKeyType, Seq<u8>) {
        (self.key_type, self.digest@)
    }
}

/// The eight big-endian bytes of `v`.
pub open spec fn be_u64_spec(v: u64) -> Seq<u8> {
    Seq::new(8, |k: int| ((v >> ((56 - 8 * k) as u64)) & 0xff) as u8)
}

/// The lookup buffer of field element `i` of the blob committed to by `(x, y)`.
pub open spec fn field_element_lookup(x: Seq<u8>, y: Seq<u8>, i: u64) -> Seq<u8> {
    x + y + Seq::new(24, |k: int| 0u8) + be_u64_spec(i)
}

/// The lookup buffer under which the proof of a blob is stored: x ‖ y.
pub open spec fn proof_lookup(x: Seq<u8>, y: Seq<u8>) -> Seq<u8> {
    x + y
}

/// The lookup buffer under which the recomputed commitment of a blob is
/// stored: x ‖ y ‖ a zero tag byte.
pub open spec fn commitment_lookup(x: Seq<u8>, y: Seq<u8>) -> Seq<u8> {
    x + y + seq![0u8]
}

/// The big-endian bytes of `v`.
pub fn be_u64(v: u64) -> (r: Vec<u8>)
    ensures
        r@ == be_u64_spec(v),
{
    let mut r: Vec<u8> = Vec::new();
    let mut k: u64 = 0;
    while k < 8
        invariant
            k <= 8,
            r@.len() == k,
            forall|j: int| 0 <= j < k ==> r@[j] == ((v >> ((56 - 8 * j) as u64)) & 0xff) as u8,
        decreases 8 - k,
    {
        let shift: u64 = 56 - 8 * k;
        r.push(((v >> shift) & 0xff) as u8);
        k = k + 1;
    }
    assert(r@ =~= be_u64_spec(v));
    r
}

/// The field-element lookup buffer for index `i`.
pub fn field_element_lookup_bytes(x: &[u8], y: &[u8], i: u64) -> (r: Vec<u8>)
    ensures
        r@ == field_element_lookup(x@, y@, i),
{
    let mut r: Vec<u8> = Vec::new();
    r.extend_from_slice(x);
    r.extend_from_slice(y);
    let mut k: usize = 0;
    while k < 24
        invariant
            k <= 24,
            r@ == x@ + y@ + Seq::new(k as nat, |j: int| 0u8),
        decreases 24 - k,
    {
        r.push(0u8);
        k = k + 1;
        assert(r@ =~= x@ + y@ + Seq::new(k as nat, |j: int| 0u8));
    }
    let idx = be_u64(i);
    r.extend_from_slice(idx.as_slice());
    assert(r@ =~= field_element_lookup(x@, y@, i));
    r
}

/// The proof lookup buffer.
pub fn proof_lookup_bytes(x: &[u8], y: &[u8]) -> (r: Vec<u8>)
    ensures
        r@ == proof_lookup(x@, y@),
{
    let mut r: Vec<u8> = Vec::new();
    r.extend_from_slice(x);
    r.extend_from_slice(y);
    r
}

/// The commitment lookup buffer.
pub fn commitment_lookup_bytes(x: &[u8], y: &[u8]) -> (r: Vec<u8>)
    ensures
        r@ == commitment_lookup(x@, y@),
{
    let mut r: Vec<u8> = Vec::new();
    r.extend_from_slice(x);
    r.extend_from_slice(y);
    r.push(0u8);
    r
}

/// The key of `lookup` in namespace `key_type`.
pub open spec fn key_of(key_type: PreimageKeyType, lookup: Seq<u8>) -> (PreimageKeyType, Seq<u8>) {
    (key_type, keccak_of(lookup))
}

/// The key under which `lookup` is filed in namespace `key_type`.
pub fn preimage_key(key_type: PreimageKeyType, lookup: &[u8]) -> (r: PreimageKey)
    ensures
        r@ == key_of(key_type, lookup@),
        r.digest@.len() == 32,
{
    PreimageKey { key_type, digest: keccak256(lookup) }
}

} // verus!

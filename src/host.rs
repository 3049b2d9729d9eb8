//! Host side: turns a fetched blob into preimage entries.

use crate::cert::{commitment_certificate, commitment_to_certificate};
use crate::keys::{
    commitment_lookup, commitment_lookup_bytes, field_element_lookup, field_element_lookup_bytes,
    key_of, preimage_key, proof_lookup, proof_lookup_bytes, PreimageKeyType,
    BYTES_PER_FIELD_ELEMENT,
};
use crate::codec::{blob_encode_spec, encode_blob};
use crate::store::{bytes_equal, entries_view, Entry, KvStore};
use vstd::prelude::*;
use vstd::slice::slice_to_vec;

verus! {

/// A commitment handed to the host must be longer than this: a 32-byte
/// header plus at least one byte of certificate.
pub const MIN_HINT_DATA_LEN: usize = 32;

/// The codec header holds a payload length of four bytes: longer blobs
/// cannot be encoded.
pub const MAX_BLOB_LEN: usize = 0xffff_ffff;

/// Why the host refused a blob hint. No entry is written in any of these cases.
#[derive(Clone, Copy, Debug, PartialEq, Eq, Structural)]
pub enum IngestError {
    /// The commitment is too short to hold a certificate.
    InvalidHintData,
    /// The certificate could not be decoded.
    CertDecodeError,
    /// The encoded blob does not fit in the field elements the certificate declares.
    InvariantBreach,
    /// The recomputed commitment differs from the certificate's.
    CommitmentMismatch,
}

/// Field element `i` of `blob`: its bytes `32 i .. 32 i + 32`, with zeros past
/// the end of `blob`.
pub open spec fn field_element(blob: Seq<u8>, i: int) -> Seq<u8> {
    Seq::new(32, |k: int| if 32 * i + k < blob.len() { blob[32 * i + k] } else { 0u8 })
}

/// The two writes of the self-describing pattern: the lookup buffer under
/// its own digest, and the payload under the same digest in the payload
/// namespace.
pub open spec fn dual_write(lookup: Seq<u8>, payload: Seq<u8>) -> Seq<
    ((PreimageKeyType, Seq<u8>), Seq<u8>),
> {
    seq![
        (key_of(PreimageKeyType::Keccak256, lookup), lookup),
        (key_of(PreimageKeyType::GlobalGeneric, lookup), payload),
    ]
}

/// The writes for the first `n` field elements of `blob`.
pub open spec fn field_element_writes(x: Seq<u8>, y: Seq<u8>, blob: Seq<u8>, n: nat) -> Seq<
    ((PreimageKeyType, Seq<u8>), Seq<u8>),
>
    decreases n,
{
    if n == 0 {
        Seq::empty()
    } else {
        let i = (n - 1) as nat;
        field_element_writes(x, y, blob, i) + dual_write(
            field_element_lookup(x, y, i as u64),
            field_element(blob, i as int),
        )
    }
}

/// Every write for a blob: its field elements, then the proof, then the
/// recomputed commitment.
pub open spec fn blob_writes(
    x: Seq<u8>,
    y: Seq<u8>,
    data_length: u32,
    blob: Seq<u8>,
    witness_commitment: Seq<u8>,
    witness_proof: Seq<u8>,
) -> Seq<((PreimageKeyType, Seq<u8>), Seq<u8>)> {
    field_element_writes(x, y, blob, data_length as nat) + dual_write(
        proof_lookup(x, y),
        witness_proof,
    ) + dual_write(commitment_lookup(x, y), witness_commitment)
}

/// What the host does with a blob hint, where `blob` is what the proxy
/// returned: the writes it makes, or why it makes none. The field elements
/// are those of the encoded form of `blob`, which must fit in the
/// certificate's data length.
pub open spec fn ingest_spec(
    commitment: Seq<u8>,
    blob: Seq<u8>,
    witness_commitment: Seq<u8>,
    witness_proof: Seq<u8>,
) -> Result<Seq<((PreimageKeyType, Seq<u8>), Seq<u8>)>, IngestError> {
    if commitment.len() <= MIN_HINT_DATA_LEN {
        Err(IngestError::InvalidHintData)
    } else {
        match commitment_certificate(commitment) {
            None => Err(IngestError::CertDecodeError),
            Some((x, y, data_length)) => if blob.len() >= MAX_BLOB_LEN {
                Err(IngestError::InvariantBreach)
            } else if blob_encode_spec(blob).len() > data_length * BYTES_PER_FIELD_ELEMENT {
                Err(IngestError::InvariantBreach)
            } else if witness_commitment != x + y {
                Err(IngestError::CommitmentMismatch)
            } else {
                Ok(
                    blob_writes(
                        x,
                        y,
                        data_length,
                        blob_encode_spec(blob),
                        witness_commitment,
                        witness_proof,
                    ),
                )
            },
        }
    }
}

/// Appends the two writes of the self-describing pattern.
fn push_dual(writes: &mut Vec<Entry>, lookup: Vec<u8>, payload: Vec<u8>)
    ensures
        entries_view(final(writes)@) == entries_view(old(writes)@) + dual_write(lookup@, payload@),
{
    let self_key = preimage_key(PreimageKeyType::Keccak256, lookup.as_slice());
    let payload_key = preimage_key(PreimageKeyType::GlobalGeneric, lookup.as_slice());
    let ghost before = writes@;
    let first = Entry { key: self_key, value: lookup };
    let second = Entry { key: payload_key, value: payload };
    writes.push(first);
    writes.push(second);
    assert(entries_view(writes@) =~= entries_view(before) + dual_write(lookup@, payload@));
}

/// Field element `i` of `blob`, zero-padded.
pub fn field_element_bytes(blob: &[u8], i: u64) -> (r: Vec<u8>)
    requires
        i < 0x1_0000_0000,
    ensures
        r@ == field_element(blob@, i as int),
{
    let n = blob.len() as u64;
    let mut r: Vec<u8> = Vec::new();
    let mut k: u64 = 0;
    while k < 32
        invariant
            k <= 32,
            i < 0x1_0000_0000,
            n == blob@.len(),
            r@ == field_element(blob@, i as int).subrange(0, k as int),
        decreases 32 - k,
    {
        let idx: u64 = 32 * i + k;
        if idx < n {
            r.push(blob[idx as usize]);
        } else {
            r.push(0u8);
        }
        k = k + 1;
        assert(r@ =~= field_element(blob@, i as int).subrange(0, k as int));
    }
    assert(r@ =~= field_element(blob@, i as int));
    r
}

/// The writes that a blob hint calls for, or why there are none.
pub fn hint_writes(
    commitment: &[u8],
    blob: &[u8],
    witness_commitment: &[u8],
    witness_proof: &[u8],
) -> (r: Result<Vec<Entry>, IngestError>)
    ensures
        r matches Ok(w) ==> ingest_spec(commitment@, blob@, witness_commitment@, witness_proof@)
            == Ok::<_, IngestError>(entries_view(w@)),
        r matches Err(e) ==> ingest_spec(commitment@, blob@, witness_commitment@, witness_proof@)
            == Err::<Seq<((PreimageKeyType, Seq<u8>), Seq<u8>)>, _>(e),
{
    if commitment.len() <= MIN_HINT_DATA_LEN {
        return Err(IngestError::InvalidHintData);
    }
    let cert = match commitment_to_certificate(commitment) {
        Ok(c) => c,
        Err(_) => return Err(IngestError::CertDecodeError),
    };
    let data_length = cert.data_length as u64;
    if blob.len() >= MAX_BLOB_LEN {
        return Err(IngestError::InvariantBreach);
    }
    let encoded = encode_blob(blob);
    if encoded.len() as u64 > data_length * 32 {
        return Err(IngestError::InvariantBreach);
    }
    let mut point: Vec<u8> = Vec::new();
    point.extend_from_slice(cert.x.as_slice());
    point.extend_from_slice(cert.y.as_slice());
    assert(point@ =~= cert.x@ + cert.y@);
    let same = bytes_equal(witness_commitment, point.as_slice());
    if !same {
        return Err(IngestError::CommitmentMismatch);
    }
    let mut writes: Vec<Entry> = Vec::new();
    let mut i: u64 = 0;
    assert(entries_view(writes@) =~= field_element_writes(cert.x@, cert.y@, encoded@, 0));
    while i < data_length
        invariant
            i <= data_length < 0x1_0000_0000,
            entries_view(writes@) == field_element_writes(cert.x@, cert.y@, encoded@, i as nat),
        decreases data_length - i,
    {
        let lookup = field_element_lookup_bytes(cert.x.as_slice(), cert.y.as_slice(), i);
        let element = field_element_bytes(encoded.as_slice(), i);
        push_dual(&mut writes, lookup, element);
        i = i + 1;
    }
    let proof_key = proof_lookup_bytes(cert.x.as_slice(), cert.y.as_slice());
    push_dual(&mut writes, proof_key, slice_to_vec(witness_proof));
    let commitment_key = commitment_lookup_bytes(cert.x.as_slice(), cert.y.as_slice());
    push_dual(&mut writes, commitment_key, slice_to_vec(witness_commitment));
    proof {
        let x = cert.x@;
        let y = cert.y@;
        assert(entries_view(writes@) =~= blob_writes(x, y, cert.data_length, encoded@, witness_commitment@, witness_proof@));
    }
    Ok(writes)
}

/// The host's handler of data-availability blob hints.
#[derive(Clone, Copy, Debug)]
pub struct EigenDAChainHintHandler;

impl EigenDAChainHintHandler {
    /// Handles a blob hint: `commitment` is the hint's data, `blob` what the
    /// proxy returned for it, and the witness pair what the witness builder
    /// computed over `blob`. On success every write of [`hint_writes`] is
    /// made, in order; on failure the store is left as it was.
    pub fn fetch_hint(
        store: &mut KvStore,
        commitment: &[u8],
        blob: &[u8],
        witness_commitment: &[u8],
        witness_proof: &[u8],
    ) -> (r: Result<(), IngestError>)
        ensures
            match ingest_spec(commitment@, blob@, witness_commitment@, witness_proof@) {
                Ok(w) => r is Ok && final(store)@ == old(store)@ + w,
                Err(e) => r == Err::<(), _>(e) && final(store)@ == old(store)@,
            },
    {
        match hint_writes(commitment, blob, witness_commitment, witness_proof) {
            Ok(w) => {
                store.set_all(w);
                Ok(())
            },
            Err(e) => Err(e),
        }
    }
}

} // verus!

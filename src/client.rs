//! Client side: rebuilds a blob from the field elements the host stored.

use crate::cert::{commitment_certificate, commitment_to_certificate};
use crate::codec::{blob_decode_error, blob_decode_spec, decode_blob, BlobDecodeError};
use crate::keys::{field_element_lookup, field_element_lookup_bytes, key_of, preimage_key, PreimageKeyType};
use crate::store::{lookup, KvStore};
use vstd::prelude::*;

verus! {

/// A commitment read by the client must be longer than this: 32 bytes of
/// header and 3 bytes of commitment-type metadata.
pub const MIN_COMMITMENT_LEN: usize = 35;

/// Why the client could not rebuild a blob.
#[derive(Clone, Copy, Debug, PartialEq, Eq, Structural)]
pub enum ReconstructError {
    /// The commitment is too short to hold a certificate.
    InsufficientData,
    /// The certificate could not be decoded.
    CertDecodeError,
    /// A field element is missing from the store or is not 32 bytes long.
    InvariantBreach,
    /// The assembled field elements are not a valid encoded blob.
    DecodeError(BlobDecodeError),
}

/// The payload key of field element `i` of the blob committed to by `(x, y)`.
pub open spec fn element_key(x: Seq<u8>, y: Seq<u8>, i: int) -> (PreimageKeyType, Seq<u8>) {
    key_of(PreimageKeyType::GlobalGeneric, field_element_lookup(x, y, i as u64))
}

/// The first `n` field elements of a blob read from `log` and laid end to
/// end; `None` where one is missing or not 32 bytes long.
pub open spec fn assemble_spec(
    x: Seq<u8>,
    y: Seq<u8>,
    log: Seq<((PreimageKeyType, Seq<u8>), Seq<u8>)>,
    n: nat,
) -> Option<Seq<u8>>
    decreases n,
{
    if n == 0 {
        Some(Seq::empty())
    } else {
        match assemble_spec(x, y, log, (n - 1) as nat) {
            Some(a) => match lookup(log, element_key(x, y, n - 1)) {
                Some(v) => if v.len() == 32 {
                    Some(a + v)
                } else {
                    None
                },
                None => None,
            },
            None => None,
        }
    }
}

pub(crate) proof fn lemma_assemble_stays_none(
    x: Seq<u8>,
    y: Seq<u8>,
    log: Seq<((PreimageKeyType, Seq<u8>), Seq<u8>)>,
    k: nat,
    n: nat,
)
    requires
        k <= n,
        assemble_spec(x, y, log, k) is None,
    ensures
        assemble_spec(x, y, log, n) is None,
    decreases n,
{
    if k < n {
        lemma_assemble_stays_none(x, y, log, k, (n - 1) as nat);
    }
}

/// What reading the blob of `commitment` from `log` gives.
pub open spec fn reconstruct_spec(
    commitment: Seq<u8>,
    log: Seq<((PreimageKeyType, Seq<u8>), Seq<u8>)>,
) -> Result<Seq<u8>, ReconstructError> {
    if commitment.len() <= MIN_COMMITMENT_LEN {
        Err(ReconstructError::InsufficientData)
    } else {
        match commitment_certificate(commitment) {
            None => Err(ReconstructError::CertDecodeError),
            Some((x, y, data_length)) => match assemble_spec(x, y, log, data_length as nat) {
                None => Err(ReconstructError::InvariantBreach),
                Some(buf) => match blob_decode_spec(buf) {
                    Some(p) => Ok(p),
                    None => Err(ReconstructError::DecodeError(blob_decode_error(buf))),
                },
            },
        }
    }
}

/// Reads the blob of `commitment` from `store`: field element by field
/// element, then through the blob codec. The store is only read.
pub fn blob_get(store: &KvStore, commitment: &[u8]) -> (r: Result<Vec<u8>, ReconstructError>)
    ensures
        r matches Ok(p) ==> reconstruct_spec(commitment@, store@) == Ok::<_, ReconstructError>(p@),
        r matches Err(e) ==> reconstruct_spec(commitment@, store@) == Err::<Seq<u8>, _>(e),
{
    if commitment.len() <= MIN_COMMITMENT_LEN {
        return Err(ReconstructError::InsufficientData);
    }
    let cert = match commitment_to_certificate(commitment) {
        Ok(c) => c,
        Err(_) => return Err(ReconstructError::CertDecodeError),
    };
    let data_length = cert.data_length as u64;
    let mut buf: Vec<u8> = Vec::new();
    let mut i: u64 = 0;
    while i < data_length
        invariant
            i <= data_length,
            assemble_spec(cert.x@, cert.y@, store@, i as nat) == Some(buf@),
            buf@.len() == 32 * i,
            data_length < 0x1_0000_0000,
            data_length == cert.data_length,
            commitment@.len() > MIN_COMMITMENT_LEN,
            commitment_certificate(commitment@) == Some(cert@),
        decreases data_length - i,
    {
        let l = field_element_lookup_bytes(cert.x.as_slice(), cert.y.as_slice(), i);
        let key = preimage_key(PreimageKeyType::GlobalGeneric, l.as_slice());
        assert(key@ == element_key(cert.x@, cert.y@, i as int));
        assert(((i + 1) as nat - 1) as int == i as int);
        let element = match store.get(&key) {
            Some(v) => v,
            None => {
                proof {
                    lemma_assemble_stays_none(cert.x@, cert.y@, store@, (i + 1) as nat, data_length as nat);
                }
                return Err(ReconstructError::InvariantBreach);
            },
        };
        if element.len() != 32 {
            proof {
                lemma_assemble_stays_none(cert.x@, cert.y@, store@, (i + 1) as nat, data_length as nat);
            }
            return Err(ReconstructError::InvariantBreach);
        }
        buf.extend_from_slice(element.as_slice());
        i = i + 1;
    }
    match decode_blob(buf.as_slice()) {
        Ok(p) => Ok(p),
        Err(e) => {
            Err(ReconstructError::DecodeError(e))
        },
    }
}

/// A reader of blobs backed by a preimage store.
pub struct OracleEigenDaProvider<'a> {
    /// The store that the host fills.
    pub oracle: &'a KvStore,
}

impl<'a> OracleEigenDaProvider<'a> {
    /// A reader of `oracle`.
    pub fn new(oracle: &'a KvStore) -> (r: OracleEigenDaProvider<'a>)
        ensures
            r.oracle == oracle,
    {
        OracleEigenDaProvider { oracle }
    }

    /// Reads the blob of `commitment`; see [`blob_get`].
    pub fn blob_get(&self, commitment: &[u8]) -> (r: Result<Vec<u8>, ReconstructError>)
        ensures
            r matches Ok(p) ==> reconstruct_spec(commitment@, self.oracle@) == Ok::<_, ReconstructError>(p@),
            r matches Err(e) ==> reconstruct_spec(commitment@, self.oracle@) == Err::<Seq<u8>, _>(e),
    {
        blob_get(self.oracle, commitment)
    }
}

} // verus!

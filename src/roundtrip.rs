//! What the host writes and what the client reads, taken together.

use crate::cert::{commitment_certificate, COMMITMENT_HEADER_LEN};
use crate::rlp::{first_item, header_spec, items_spec};
use crate::client::{assemble_spec, element_key, reconstruct_spec, MIN_COMMITMENT_LEN};
use crate::codec::{blob_decode_spec, blob_encode_spec, lemma_decode_encode, unpad, CODEC_HEADER_LEN};
use crate::digest::keccak_of;
use crate::host::{
    blob_writes, dual_write, field_element, field_element_writes, ingest_spec, IngestError,
};
use crate::keys::{commitment_lookup, field_element_lookup, proof_lookup, PreimageKeyType};
use crate::store::lookup;
use vstd::prelude::*;

verus! {

/// The digests of the lookup buffers of one blob are pairwise distinct: its
/// `n` field-element buffers, its proof buffer and its commitment buffer.
pub open spec fn lookup_digests_distinct(x: Seq<u8>, y: Seq<u8>, n: nat) -> bool {
    &&& forall|i: int, j: int|
        0 <= i < j < n ==> #[trigger] keccak_of(field_element_lookup(x, y, i as u64)) != #[trigger] keccak_of(
            field_element_lookup(x, y, j as u64),
        )
    &&& forall|i: int|
        0 <= i < n ==> #[trigger] keccak_of(field_element_lookup(x, y, i as u64)) != keccak_of(
            proof_lookup(x, y),
        ) && keccak_of(field_element_lookup(x, y, i as u64)) != keccak_of(commitment_lookup(x, y))
}

/// `blob` cut or padded with zeros to `n` field elements.
pub open spec fn padded(blob: Seq<u8>, n: nat) -> Seq<u8> {
    Seq::new(32 * n, |k: int| if k < blob.len() { blob[k] } else { 0u8 })
}

/// A read of later writes shadows earlier ones.
pub proof fn lemma_lookup_append(
    a: Seq<((PreimageKeyType, Seq<u8>), Seq<u8>)>,
    b: Seq<((PreimageKeyType, Seq<u8>), Seq<u8>)>,
    k: (PreimageKeyType, Seq<u8>),
)
    ensures
        lookup(a + b, k) == match lookup(b, k) {
            Some(v) => Some(v),
            None => lookup(a, k),
        },
    decreases b.len(),
{
    if b.len() == 0 {
        assert(a + b =~= a);
    } else {
        assert((a + b).drop_last() =~= a + b.drop_last());
        assert((a + b).last() == b.last());
        lemma_lookup_append(a, b.drop_last(), k);
    }
}

proof fn lemma_element_writes_read(x: Seq<u8>, y: Seq<u8>, blob: Seq<u8>, n: nat, i: int)
    requires
        0 <= i < n <= 0x1_0000_0000,
        lookup_digests_distinct(x, y, n),
    ensures
        lookup(field_element_writes(x, y, blob, n), element_key(x, y, i)) == Some(
            field_element(blob, i),
        ),
    decreases n,
{
    let m = (n - 1) as nat;
    let w = field_element_writes(x, y, blob, n);
    let d = dual_write(field_element_lookup(x, y, m as u64), field_element(blob, m as int));
    assert(w == field_element_writes(x, y, blob, m) + d);
    lemma_lookup_append(field_element_writes(x, y, blob, m), d, element_key(x, y, i));
    assert(d.drop_last().drop_last() =~= Seq::<((PreimageKeyType, Seq<u8>), Seq<u8>)>::empty());
    reveal_with_fuel(lookup, 3);
    if i < m {
        assert(keccak_of(field_element_lookup(x, y, i as u64)) != keccak_of(
            field_element_lookup(x, y, m as u64),
        ));
        assert(lookup_digests_distinct(x, y, m));
        lemma_element_writes_read(x, y, blob, m, i);
    }
}

proof fn lemma_blob_writes_read(
    x: Seq<u8>,
    y: Seq<u8>,
    data_length: u32,
    blob: Seq<u8>,
    wc: Seq<u8>,
    wp: Seq<u8>,
    i: int,
)
    requires
        0 <= i < data_length,
        lookup_digests_distinct(x, y, data_length as nat),
    ensures
        lookup(blob_writes(x, y, data_length, blob, wc, wp), element_key(x, y, i)) == Some(
            field_element(blob, i),
        ),
{
    let f = field_element_writes(x, y, blob, data_length as nat);
    let p = dual_write(proof_lookup(x, y), wp);
    let c = dual_write(commitment_lookup(x, y), wc);
    let k = element_key(x, y, i);
    assert(keccak_of(field_element_lookup(x, y, i as u64)) != keccak_of(proof_lookup(x, y)));
    lemma_lookup_append(f + p, c, k);
    lemma_lookup_append(f, p, k);
    assert(c.drop_last().drop_last() =~= Seq::<((PreimageKeyType, Seq<u8>), Seq<u8>)>::empty());
    assert(p.drop_last().drop_last() =~= Seq::<((PreimageKeyType, Seq<u8>), Seq<u8>)>::empty());
    reveal_with_fuel(lookup, 3);
    lemma_element_writes_read(x, y, blob, data_length as nat, i);
}

proof fn lemma_assemble_written(
    log: Seq<((PreimageKeyType, Seq<u8>), Seq<u8>)>,
    x: Seq<u8>,
    y: Seq<u8>,
    data_length: u32,
    blob: Seq<u8>,
    wc: Seq<u8>,
    wp: Seq<u8>,
    n: nat,
)
    requires
        n <= data_length,
        lookup_digests_distinct(x, y, data_length as nat),
    ensures
        assemble_spec(x, y, log + blob_writes(x, y, data_length, blob, wc, wp), n) == Some(
            padded(blob, n),
        ),
    decreases n,
{
    let all = log + blob_writes(x, y, data_length, blob, wc, wp);
    if n == 0 {
        assert(padded(blob, 0) =~= Seq::<u8>::empty());
    } else {
        let m = (n - 1) as nat;
        lemma_assemble_written(log, x, y, data_length, blob, wc, wp, m);
        lemma_blob_writes_read(x, y, data_length, blob, wc, wp, m as int);
        lemma_lookup_append(log, blob_writes(x, y, data_length, blob, wc, wp), element_key(x, y, m as int));
        assert(padded(blob, m) + field_element(blob, m as int) =~= padded(blob, n));
    }
}

/// Unpadding a longer body keeps the unpadded shorter body as a prefix.
proof fn lemma_unpad_prefix(a: Seq<u8>, z: Seq<u8>)
    ensures
        unpad(a).len() <= unpad(a + z).len(),
        unpad(a + z).subrange(0, unpad(a).len() as int) == unpad(a),
    decreases a.len(),
{
    let az = a + z;
    if a.len() == 0 {
        assert(unpad(a) =~= Seq::<u8>::empty());
        assert(unpad(az).subrange(0, 0) =~= Seq::<u8>::empty());
    } else if a.len() <= 32 {
        if az.len() <= 32 {
            assert(unpad(az).subrange(0, unpad(a).len() as int) =~= unpad(a));
        } else {
            assert(unpad(az).subrange(0, unpad(a).len() as int) =~= unpad(a));
        }
    } else {
        let a2 = a.subrange(32, a.len() as int);
        assert(az.subrange(32, az.len() as int) =~= a2 + z);
        assert(az.subrange(1, 32) =~= a.subrange(1, 32));
        lemma_unpad_prefix(a2, z);
        assert(unpad(az).subrange(0, unpad(a).len() as int) =~= unpad(a));
    }
}

/// Zeros after an encoded blob do not change what it decodes to.
proof fn lemma_decode_padded(blob: Seq<u8>, z: Seq<u8>)
    requires
        blob_decode_spec(blob) is Some,
    ensures
        blob_decode_spec(blob + z) == blob_decode_spec(blob),
{
    let bz = blob + z;
    let body = blob.subrange(CODEC_HEADER_LEN as int, blob.len() as int);
    assert(bz.subrange(CODEC_HEADER_LEN as int, bz.len() as int) =~= body + z);
    assert(bz.subrange(2, 6) =~= blob.subrange(2, 6));
    lemma_unpad_prefix(body, z);
    let size = crate::rlp::be_value(blob.subrange(2, 6));
    assert(unpad(body + z).subrange(0, size as int) =~= unpad(body).subrange(0, size as int));
}

proof fn lemma_first_item_len(s: Seq<u8>)
    ensures
        first_item(s) matches Some((l, p)) ==> s.len() >= p.len() + (if l || p.len() != 1 {
            1int
        } else {
            0int
        }),
{
}

proof fn lemma_items_first_len(s: Seq<u8>)
    ensures
        items_spec(s) matches Some(it) ==> (it.len() > 0 ==> first_item(s) == Some(it[0])),
{
    if s.len() > 0 {
        match header_spec(s) {
            Some((l, start, len)) => {
                if start + len > 0 {
                    if let Some(rest) = items_spec(s.subrange(start + len, s.len() as int)) {
                        assert((seq![(l, s.subrange(start, start + len))] + rest)[0] == (l, s.subrange(start, start + len)));
                    }
                }
            },
            None => {},
        }
    }
}

/// A commitment that holds a certificate is long enough for the client.
pub proof fn lemma_certificate_commitment_len(commitment: Seq<u8>)
    requires
        commitment_certificate(commitment) is Some,
    ensures
        commitment.len() > MIN_COMMITMENT_LEN,
{
    let c = commitment.subrange(COMMITMENT_HEADER_LEN as int, commitment.len() as int);
    lemma_first_item_len(c);
    let outer = (first_item(c)->0).1;
    lemma_first_item_len(outer);
    let blob_header = (first_item(outer)->0).1;
    lemma_items_first_len(blob_header);
    let f = items_spec(blob_header)->0;
    lemma_first_item_len(blob_header);
    let point = f[0].1;
    lemma_items_first_len(point);
    lemma_first_item_len(point);
}

/// Host ingestion followed by a client read on the same store returns the
/// bytes the proxy returned, provided the lookup digests of the blob do not
/// collide. The read changes nothing, so reading again gives the same.
pub proof fn lemma_ingest_then_read(
    log: Seq<((PreimageKeyType, Seq<u8>), Seq<u8>)>,
    commitment: Seq<u8>,
    blob: Seq<u8>,
    witness_commitment: Seq<u8>,
    witness_proof: Seq<u8>,
)
    requires
        ingest_spec(commitment, blob, witness_commitment, witness_proof) is Ok,
        commitment_certificate(commitment) matches Some((x, y, n)) ==> lookup_digests_distinct(
            x,
            y,
            n as nat,
        ),
    ensures
        ingest_spec(commitment, blob, witness_commitment, witness_proof) matches Ok(w)
            && reconstruct_spec(commitment, log + w) == Ok::<_, crate::client::ReconstructError>(
            blob,
        ),
{
    let (x, y, n) = commitment_certificate(commitment)->0;
    lemma_certificate_commitment_len(commitment);
    let e = blob_encode_spec(blob);
    lemma_assemble_written(log, x, y, n, e, witness_commitment, witness_proof, n as nat);
    let z = Seq::new((32 * n - e.len()) as nat, |k: int| 0u8);
    assert(padded(e, n as nat) =~= e + z);
    lemma_decode_encode(blob);
    lemma_decode_padded(e, z);
}

/// Every field element that ingestion writes is 32 bytes long, and each of
/// its bytes past the end of the encoded blob is zero: an element past the
/// end is all zeros, never missing. This holds where the lookup digests of the
/// blob do not collide.
pub proof fn lemma_field_element_zero_padded(
    commitment: Seq<u8>,
    blob: Seq<u8>,
    witness_commitment: Seq<u8>,
    witness_proof: Seq<u8>,
    i: int,
    k: int,
)
    requires
        ingest_spec(commitment, blob, witness_commitment, witness_proof) is Ok,
        commitment_certificate(commitment) matches Some((x, y, n)) && lookup_digests_distinct(
            x,
            y,
            n as nat,
        ) && 0 <= i < n,
        0 <= k < 32,
        32 * i + k >= blob_encode_spec(blob).len(),
    ensures
        ({
            let (x, y, n) = commitment_certificate(commitment)->0;
            let w = ingest_spec(commitment, blob, witness_commitment, witness_proof)->Ok_0;
            lookup(w, element_key(x, y, i)) matches Some(v) && v.len() == 32 && v[k] == 0
        }),
{
    let (x, y, n) = commitment_certificate(commitment)->0;
    lemma_blob_writes_read(x, y, n, blob_encode_spec(blob), witness_commitment, witness_proof, i);
}

/// A recomputed commitment that differs from the certificate's makes the
/// host refuse the blob and write nothing; a client read on a store that held
/// no first field element of that blob then fails too.
pub proof fn lemma_mismatch_writes_nothing(
    log: Seq<((PreimageKeyType, Seq<u8>), Seq<u8>)>,
    commitment: Seq<u8>,
    blob: Seq<u8>,
    witness_commitment: Seq<u8>,
    witness_proof: Seq<u8>,
)
    requires
        commitment_certificate(commitment) matches Some((x, y, n)) && blob.len() < 0xffff_ffff
            && blob_encode_spec(blob).len() <= n * 32 && witness_commitment != x + y && lookup(log, element_key(x, y, 0)) is None,
    ensures
        ingest_spec(commitment, blob, witness_commitment, witness_proof) == Err::<
            Seq<((PreimageKeyType, Seq<u8>), Seq<u8>)>,
            _,
        >(IngestError::CommitmentMismatch),
        reconstruct_spec(commitment, log) is Err,
{
    let (x, y, n) = commitment_certificate(commitment)->0;
    lemma_certificate_commitment_len(commitment);
    if n > 0 {
        assert(assemble_spec(x, y, log, 0) == Some(Seq::<u8>::empty()));
        assert(assemble_spec(x, y, log, 1) is None);
        crate::client::lemma_assemble_stays_none(x, y, log, 1, n as nat);
    } else {
        assert(assemble_spec(x, y, log, 0) == Some(Seq::<u8>::empty()));
    }
}

} // verus!

use hydro_da::cert::{commitment_to_certificate, decode_certificate};
use hydro_da::client::{blob_get, OracleEigenDaProvider, ReconstructError};
use hydro_da::codec::{decode_blob, encode_blob, BlobDecodeError};
use hydro_da::host::{field_element_bytes, hint_writes, EigenDAChainHintHandler, IngestError};
use hydro_da::keys::{
    be_u64, commitment_lookup_bytes, field_element_lookup_bytes, preimage_key, proof_lookup_bytes,
    PreimageKeyType,
};
use hydro_da::store::KvStore;

fn rlp_bytes(b: &[u8]) -> Vec<u8> {
    let mut out = Vec::new();
    if b.len() == 1 && b[0] < 0x80 {
        out.push(b[0]);
    } else if b.len() <= 55 {
        out.push(0x80 + b.len() as u8);
        out.extend_from_slice(b);
    } else {
        let len = (b.len() as u32).to_be_bytes();
        let skip = len.iter().take_while(|x| **x == 0).count();
        out.push(0xb7 + (4 - skip) as u8);
        out.extend_from_slice(&len[skip..]);
        out.extend_from_slice(b);
    }
    out
}

fn rlp_list(items: &[Vec<u8>]) -> Vec<u8> {
    let payload: Vec<u8> = items.concat();
    let mut out = Vec::new();
    if payload.len() <= 55 {
        out.push(0xc0 + payload.len() as u8);
    } else {
        let len = (payload.len() as u32).to_be_bytes();
        let skip = len.iter().take_while(|x| **x == 0).count();
        out.push(0xf7 + (4 - skip) as u8);
        out.extend_from_slice(&len[skip..]);
    }
    out.extend_from_slice(&payload);
    out
}

fn rlp_uint(v: u32) -> Vec<u8> {
    let be = v.to_be_bytes();
    let skip = be.iter().take_while(|x| **x == 0).count();
    rlp_bytes(&be[skip..])
}

fn certificate(x: &[u8], y: &[u8], data_length: u32) -> Vec<u8> {
    let point = rlp_list(&[rlp_bytes(x), rlp_bytes(y)]);
    let header = rlp_list(&[point, rlp_uint(data_length), rlp_list(&[])]);
    rlp_list(&[header, rlp_list(&[rlp_uint(7)])])
}

fn commitment(x: &[u8], y: &[u8], data_length: u32) -> Vec<u8> {
    let mut c = vec![0x01, 0x00, 0x00];
    c.extend(certificate(x, y, data_length));
    c
}

fn point() -> (Vec<u8>, Vec<u8>, Vec<u8>) {
    let x = vec![0x01u8; 32];
    let y = vec![0x02u8; 32];
    let mut xy = x.clone();
    xy.extend_from_slice(&y);
    (x, y, xy)
}

fn read(store: &KvStore, ty: PreimageKeyType, lookup: &[u8]) -> Option<Vec<u8>> {
    store.get(&preimage_key(ty, lookup))
}

#[test]
fn keccak_of_empty_input() {
    let k = preimage_key(PreimageKeyType::Keccak256, &[]);
    let expected: Vec<u8> = vec![
        0xc5, 0xd2, 0x46, 0x01, 0x86, 0xf7, 0x23, 0x3c, 0x92, 0x7e, 0x7d, 0xb2, 0xdc, 0xc7, 0x03,
        0xc0, 0xe5, 0x00, 0xb6, 0x53, 0xca, 0x82, 0x27, 0x3b, 0x7b, 0xfa, 0xd8, 0x04, 0x5d, 0x85,
        0xa4, 0x70,
    ];
    assert_eq!(k.digest, expected);
    assert_eq!(k.key_type, PreimageKeyType::Keccak256);
}

#[test]
fn lookup_buffers_layout() {
    let (x, y, xy) = point();
    assert_eq!(be_u64(0x0102030405060708), vec![1, 2, 3, 4, 5, 6, 7, 8]);
    let l = field_element_lookup_bytes(&x, &y, 5);
    assert_eq!(l.len(), 96);
    assert_eq!(&l[..64], &xy[..]);
    assert!(l[64..88].iter().all(|b| *b == 0));
    assert_eq!(&l[88..], &[0, 0, 0, 0, 0, 0, 0, 5]);
    assert_eq!(proof_lookup_bytes(&x, &y), xy);
    let mut c = xy.clone();
    c.push(0);
    assert_eq!(commitment_lookup_bytes(&x, &y), c);
}

#[test]
fn certificate_decodes() {
    let (x, y, _) = point();
    let cert = decode_certificate(&certificate(&x, &y, 300)).unwrap();
    assert_eq!(cert.x, x);
    assert_eq!(cert.y, y);
    assert_eq!(cert.data_length, 300);
    let c = commitment_to_certificate(&commitment(&x, &y, 2)).unwrap();
    assert_eq!(c.data_length, 2);
}

#[test]
fn certificate_rejects_bad_input() {
    let (x, y, _) = point();
    assert!(decode_certificate(&[0x80]).is_err());
    assert!(decode_certificate(&[]).is_err());
    let short_x = certificate(&x[..31], &y, 2);
    assert!(decode_certificate(&short_x).is_err());
    let mut cut = certificate(&x, &y, 2);
    cut.truncate(cut.len() - 10);
    assert!(decode_certificate(&cut).is_err());
    assert!(commitment_to_certificate(&[1, 0]).is_err());
}

#[test]
fn codec_decodes_and_reports_errors() {
    let payload: Vec<u8> = (0u8..100).collect();
    let enc = encode_blob(&payload);
    assert_eq!(enc.len(), 32 + 3 * 32 + 1 + 7);
    assert_eq!(&enc[..6], &[0, 0, 0, 0, 0, 100]);
    assert!(enc[6..32].iter().all(|b| *b == 0));
    assert_eq!(enc[32], 0);
    assert_eq!(&enc[33..64], &payload[..31]);
    assert_eq!(enc[64], 0);
    assert_eq!(decode_blob(&enc).unwrap(), payload);
    assert_eq!(decode_blob(&encode_blob(&[])).unwrap(), Vec::<u8>::new());
    let mut padded = enc.clone();
    padded.extend_from_slice(&[0u8; 64]);
    assert_eq!(decode_blob(&padded).unwrap(), payload);
    assert_eq!(decode_blob(&enc[..31]), Err(BlobDecodeError::TooShort));
    let mut bad = enc.clone();
    bad[1] = 1;
    assert_eq!(decode_blob(&bad), Err(BlobDecodeError::UnknownVersion));
    assert_eq!(decode_blob(&enc[..64]), Err(BlobDecodeError::Truncated));
}

#[test]
fn field_elements_are_zero_padded() {
    let blob: Vec<u8> = vec![0xAB; 40];
    let fe0 = field_element_bytes(&blob, 0);
    assert_eq!(fe0, vec![0xAB; 32]);
    let fe1 = field_element_bytes(&blob, 1);
    assert_eq!(&fe1[..8], &[0xAB; 8]);
    assert!(fe1[8..].iter().all(|b| *b == 0));
    let fe2 = field_element_bytes(&blob, 2);
    assert_eq!(fe2, vec![0u8; 32]);
}

#[test]
fn ingest_writes_example_blob() {
    // The 64 bytes encode to 99 bytes, which do not fit in two field elements.
    let (x, y, xy) = point();
    let c = commitment(&x, &y, 2);
    let mut blob = vec![0u8; 32];
    blob.extend_from_slice(&[0xFF; 32]);
    let mut store = KvStore::new();
    let r = EigenDAChainHintHandler::fetch_hint(&mut store, &c, &blob, &xy, &[0x55; 48]);
    assert_eq!(r, Err(IngestError::InvariantBreach));
    assert_eq!(store.len(), 0);
}

#[test]
fn example_blob_round_trip_with_room() {
    let (x, y, xy) = point();
    let c = commitment(&x, &y, 4);
    let mut blob = vec![0u8; 32];
    blob.extend_from_slice(&[0xFF; 32]);
    let proof = vec![0x55u8; 48];
    let mut store = KvStore::new();
    EigenDAChainHintHandler::fetch_hint(&mut store, &c, &blob, &xy, &proof).unwrap();
    assert_eq!(store.len(), 4 * 2 + 4);
    let enc = encode_blob(&blob);
    let mut assembled = Vec::new();
    for i in 0..4u64 {
        let l = field_element_lookup_bytes(&x, &y, i);
        assert_eq!(read(&store, PreimageKeyType::Keccak256, &l), Some(l.clone()));
        let fe = read(&store, PreimageKeyType::GlobalGeneric, &l).unwrap();
        assert_eq!(fe.len(), 32);
        assembled.extend(fe);
    }
    assert_eq!(&assembled[..enc.len()], &enc[..]);
    assert!(assembled[enc.len()..].iter().all(|b| *b == 0));
    let pl = proof_lookup_bytes(&x, &y);
    let cl = commitment_lookup_bytes(&x, &y);
    assert_eq!(read(&store, PreimageKeyType::GlobalGeneric, &pl), Some(proof.clone()));
    assert_eq!(read(&store, PreimageKeyType::GlobalGeneric, &cl), Some(xy.clone()));
    assert_eq!(read(&store, PreimageKeyType::Keccak256, &pl), Some(pl.clone()));
    assert_eq!(read(&store, PreimageKeyType::Keccak256, &cl), Some(cl.clone()));
    assert_eq!(hint_writes(&c, &blob, &xy, &proof).unwrap().len(), 12);
    assert_eq!(blob_get(&store, &c), Ok(blob));
}

#[test]
fn ingest_then_reconstruct_returns_payload() {
    let (x, y, xy) = point();
    let payload = b"hello, data availability".to_vec();
    let c = commitment(&x, &y, 3);
    let mut store = KvStore::new();
    EigenDAChainHintHandler::fetch_hint(&mut store, &c, &payload, &xy, &[1, 2, 3]).unwrap();
    assert_eq!(blob_get(&store, &c), Ok(payload.clone()));
    assert_eq!(blob_get(&store, &c), Ok(payload.clone()));
    let provider = OracleEigenDaProvider::new(&store);
    assert_eq!(provider.blob_get(&c), Ok(payload));
}

#[test]
fn commitment_mismatch_writes_nothing() {
    let (x, y, _) = point();
    let c = commitment(&x, &y, 3);
    let blob = b"data".to_vec();
    let wrong = vec![0x09u8; 64];
    let mut store = KvStore::new();
    let r = EigenDAChainHintHandler::fetch_hint(&mut store, &c, &blob, &wrong, &[1]);
    assert_eq!(r, Err(IngestError::CommitmentMismatch));
    assert_eq!(store.len(), 0);
    assert_eq!(blob_get(&store, &c), Err(ReconstructError::InvariantBreach));
}

#[test]
fn ingest_errors() {
    let (x, y, xy) = point();
    let mut store = KvStore::new();
    let short = vec![1u8; 32];
    assert_eq!(
        EigenDAChainHintHandler::fetch_hint(&mut store, &short, &[], &xy, &[]),
        Err(IngestError::InvalidHintData)
    );
    let garbage = vec![0x01u8; 40];
    assert_eq!(
        EigenDAChainHintHandler::fetch_hint(&mut store, &garbage, &[], &xy, &[]),
        Err(IngestError::CertDecodeError)
    );
    let c = commitment(&x, &y, 1);
    assert_eq!(
        EigenDAChainHintHandler::fetch_hint(&mut store, &c, &[0u8; 33], &xy, &[]),
        Err(IngestError::InvariantBreach)
    );
    assert_eq!(store.len(), 0);
}

#[test]
fn reconstruct_errors() {
    let (x, y, xy) = point();
    let store = KvStore::new();
    assert_eq!(blob_get(&store, &[1u8; 35]), Err(ReconstructError::InsufficientData));
    assert_eq!(blob_get(&store, &[1u8; 40]), Err(ReconstructError::CertDecodeError));
    let c = commitment(&x, &y, 1);
    let mut store = KvStore::new();
    EigenDAChainHintHandler::fetch_hint(&mut store, &c, &[], &xy, &[]).unwrap();
    assert_eq!(blob_get(&store, &c), Ok(vec![]));
    let mut store = KvStore::new();
    let mut bad = vec![0u8; 32];
    bad[1] = 3;
    let l0 = field_element_lookup_bytes(&x, &y, 0);
    store.set(preimage_key(PreimageKeyType::GlobalGeneric, &l0), bad);
    assert_eq!(
        blob_get(&store, &c),
        Err(ReconstructError::DecodeError(BlobDecodeError::UnknownVersion))
    );
    let mut store = KvStore::new();
    store.set(preimage_key(PreimageKeyType::GlobalGeneric, &l0), vec![0u8; 31]);
    assert_eq!(blob_get(&store, &c), Err(ReconstructError::InvariantBreach));
}

#[test]
fn store_reads_latest_write() {
    let mut store = KvStore::new();
    let k = preimage_key(PreimageKeyType::GlobalGeneric, b"abc");
    assert_eq!(store.get(&k), None);
    store.set(k.clone(), vec![1]);
    store.set(preimage_key(PreimageKeyType::Keccak256, b"abc"), vec![2]);
    store.set(k.clone(), vec![3]);
    assert_eq!(store.get(&k), Some(vec![3]));
    assert_eq!(store.get(&preimage_key(PreimageKeyType::Keccak256, b"abc")), Some(vec![2]));
    assert_eq!(store.len(), 3);
}

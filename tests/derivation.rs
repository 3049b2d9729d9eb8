use hydro_da::client::ReconstructError;
use hydro_da::codec::encode_blob;
use hydro_da::host::EigenDAChainHintHandler;
use hydro_da::hint::{HintParsingError, HintWrapper};
use hydro_da::proto::{decode_calldata_frame, decode_frame_ref, CalldataValue};
use hydro_da::proxy::{classify_response, parse_duration, request_url, EigenDACfg, ProxyError};
use hydro_da::rlp::byte_list;
use hydro_da::source::{
    blob_frames, scan_transactions, EigenDASource, SourceError, Transaction,
    DERIVATION_VERSION_EIGEN_DA,
};
use hydro_da::store::KvStore;

fn rlp_bytes(b: &[u8]) -> Vec<u8> {
    let mut out = Vec::new();
    if b.len() == 1 && b[0] < 0x80 {
        out.push(b[0]);
    } else {
        assert!(b.len() <= 55);
        out.push(0x80 + b.len() as u8);
        out.extend_from_slice(b);
    }
    out
}

fn rlp_list(items: &[Vec<u8>]) -> Vec<u8> {
    let payload: Vec<u8> = items.concat();
    let mut out = Vec::new();
    if payload.len() <= 55 {
        out.push(0xc0 + payload.len() as u8);
    } else {
        out.push(0xf8);
        out.push(payload.len() as u8);
    }
    out.extend_from_slice(&payload);
    out
}

fn rlp_byte_list(items: &[&[u8]]) -> Vec<u8> {
    let encoded: Vec<Vec<u8>> = items.iter().map(|b| rlp_bytes(b)).collect();
    rlp_list(&encoded)
}

fn commitment(x: &[u8], y: &[u8], data_length: u8) -> Vec<u8> {
    let point = rlp_list(&[rlp_bytes(x), rlp_bytes(y)]);
    let header = rlp_list(&[point, vec![data_length], rlp_list(&[])]);
    let mut c = vec![0x01, 0x00, 0x00];
    c.extend(rlp_list(&[header]));
    c
}

fn varint(mut v: u64) -> Vec<u8> {
    let mut out = Vec::new();
    loop {
        if v < 0x80 {
            out.push(v as u8);
            return out;
        }
        out.push((v & 0x7f) as u8 | 0x80);
        v >>= 7;
    }
}

fn bytes_field(number: u64, b: &[u8]) -> Vec<u8> {
    let mut out = varint(number << 3 | 2);
    out.extend(varint(b.len() as u64));
    out.extend_from_slice(b);
    out
}

fn varint_field(number: u64, v: u64) -> Vec<u8> {
    let mut out = varint(number << 3);
    out.extend(varint(v));
    out
}

fn frame_ref(commitment: &[u8], blob_length: u64, quorums: &[u64]) -> Vec<u8> {
    let mut m = bytes_field(1, commitment);
    m.extend(varint_field(2, blob_length));
    let packed: Vec<u8> = quorums.iter().flat_map(|q| varint(*q)).collect();
    if !quorums.is_empty() {
        m.extend(bytes_field(3, &packed));
    }
    m
}

fn calldata(message: Vec<u8>) -> Vec<u8> {
    let mut c = vec![DERIVATION_VERSION_EIGEN_DA];
    c.extend(message);
    c
}

const INBOX: [u8; 20] = [0x11; 20];
const SIGNER: [u8; 20] = [0x22; 20];

fn batcher_tx(input: Vec<u8>, blob_hashes: Option<Vec<Vec<u8>>>) -> Transaction {
    Transaction { to: Some(INBOX.to_vec()), signer: SIGNER.to_vec(), input, blob_hashes }
}

/// A store holding one blob whose payload is an RLP list of two frames, and
/// the commitment and frame-list length of that blob.
fn store_with_frames() -> (KvStore, Vec<u8>, u64) {
    let x = vec![0x01u8; 32];
    let y = vec![0x02u8; 32];
    let mut xy = x.clone();
    xy.extend_from_slice(&y);
    let frames = rlp_byte_list(&[b"ref-1", b"ref-2"]);
    let mut payload = frames.clone();
    payload.extend_from_slice(b"trailing bytes past the declared length");
    let encoded_len = encode_blob(&payload).len();
    let c = commitment(&x, &y, (encoded_len / 32 + 1) as u8);
    let mut store = KvStore::new();
    EigenDAChainHintHandler::fetch_hint(&mut store, &c, &payload, &xy, &[0xAA]).unwrap();
    (store, c, frames.len() as u64)
}

#[test]
fn mixed_block_frames_in_scan_order() {
    let (store, c, len) = store_with_frames();
    let txs = vec![
        Transaction {
            to: Some(vec![0x33; 20]),
            signer: SIGNER.to_vec(),
            input: vec![],
            blob_hashes: Some(vec![vec![0xA0; 32], vec![0xA1; 32]]),
        },
        batcher_tx(vec![], Some(vec![vec![0xB0; 32]])),
        batcher_tx(calldata(bytes_field(1, b"inline-1")), None),
        batcher_tx(calldata(bytes_field(2, &frame_ref(&c, len, &[0, 1]))), None),
        batcher_tx(vec![0x00, 0x01, 0x02], None),
        Transaction { to: None, signer: SIGNER.to_vec(), input: vec![1], blob_hashes: None },
        batcher_tx(calldata(bytes_field(1, b"inline-2")), None),
    ];
    let (frames, hashes) = scan_transactions(&INBOX, &SIGNER, &store, &txs).unwrap();
    assert_eq!(
        frames,
        vec![b"inline-1".to_vec(), b"ref-1".to_vec(), b"ref-2".to_vec(), b"inline-2".to_vec()]
    );
    assert_eq!(hashes.len(), 1);
    assert_eq!(hashes[0].hash, vec![0xB0; 32]);
    assert_eq!(hashes[0].index, 2);

    let plain = vec![Some(rlp_byte_list(&[b"plain-1"]))];
    let mut source = EigenDASource::new(INBOX.to_vec());
    let mut out = Vec::new();
    loop {
        match source.next(&store, &txs, &SIGNER, &plain) {
            Ok(f) => out.push(f),
            Err(e) => {
                assert_eq!(e, SourceError::Eof);
                break;
            }
        }
    }
    let expected = vec![
        b"inline-1".to_vec(),
        b"ref-1".to_vec(),
        b"ref-2".to_vec(),
        b"inline-2".to_vec(),
        b"plain-1".to_vec(),
    ];
    assert_eq!(out, expected);
    assert_eq!(source.next_data(), Err(SourceError::Eof));

    source.clear();
    let mut again = Vec::new();
    while let Ok(f) = source.next(&store, &txs, &SIGNER, &plain) {
        again.push(f);
    }
    assert_eq!(again, expected);
}

#[test]
fn frame_ref_without_quorums_is_dropped() {
    let (store, c, len) = store_with_frames();
    let txs = vec![batcher_tx(calldata(bytes_field(2, &frame_ref(&c, len, &[]))), None)];
    let mut source = EigenDASource::new(INBOX.to_vec());
    assert_eq!(source.next(&store, &txs, &SIGNER, &Vec::new()), Err(SourceError::Eof));
    let (frames, hashes) = scan_transactions(&INBOX, &SIGNER, &store, &txs).unwrap();
    assert!(frames.is_empty());
    assert!(hashes.is_empty());
}

#[test]
fn other_signer_is_ignored() {
    let store = KvStore::new();
    let mut tx = batcher_tx(calldata(bytes_field(1, b"x")), None);
    tx.signer = vec![0u8; 20];
    let (frames, _) = scan_transactions(&INBOX, &SIGNER, &store, &vec![tx]).unwrap();
    assert!(frames.is_empty());
}

#[test]
fn source_errors() {
    let store = KvStore::new();
    let bad = vec![batcher_tx(calldata(vec![0xff]), None)];
    assert_eq!(
        scan_transactions(&INBOX, &SIGNER, &store, &bad).err(),
        Some(SourceError::ProtoDecodeError)
    );
    let missing = commitment(&[3u8; 32], &[4u8; 32], 2);
    let unresolved = vec![batcher_tx(calldata(bytes_field(2, &frame_ref(&missing, 1, &[0]))), None)];
    assert_eq!(
        scan_transactions(&INBOX, &SIGNER, &store, &unresolved).err(),
        Some(SourceError::Provider(ReconstructError::InvariantBreach))
    );
    let (store, c, len) = store_with_frames();
    let too_long = vec![batcher_tx(calldata(bytes_field(2, &frame_ref(&c, 5000, &[0]))), None)];
    assert_eq!(
        scan_transactions(&INBOX, &SIGNER, &store, &too_long).err(),
        Some(SourceError::BlobTooShort)
    );
    let cut = vec![batcher_tx(calldata(bytes_field(2, &frame_ref(&c, len - 1, &[0]))), None)];
    assert_eq!(
        scan_transactions(&INBOX, &SIGNER, &store, &cut).err(),
        Some(SourceError::RlpDecodeError)
    );
    let plain_tx = vec![batcher_tx(vec![], Some(vec![vec![1u8; 32]]))];
    let mut source = EigenDASource::new(INBOX.to_vec());
    assert_eq!(
        source.load_blobs(&store, &plain_tx, &SIGNER, &vec![Some(vec![0x05])]),
        Err(SourceError::RlpDecodeError)
    );
    assert_eq!(
        source.load_blobs(&store, &plain_tx, &SIGNER, &vec![None]),
        Err(SourceError::BlobDecodeError)
    );
    assert_eq!(
        source.load_blobs(&store, &plain_tx, &SIGNER, &Vec::new()),
        Err(SourceError::MissingBlob)
    );
    assert_eq!(source.next_data(), Err(SourceError::Eof));
}

#[test]
fn blob_frames_truncates_to_declared_length() {
    let mut data = rlp_byte_list(&[b"a", b"bc"]);
    let n = data.len() as u32;
    data.extend_from_slice(&[0xff, 0xff]);
    assert_eq!(blob_frames(&data, n), Ok(vec![b"a".to_vec(), b"bc".to_vec()]));
    assert_eq!(blob_frames(&data, 100), Err(SourceError::BlobTooShort));
}

#[test]
fn calldata_frame_decoding() {
    match decode_calldata_frame(&bytes_field(1, b"frame")).unwrap() {
        Some(CalldataValue::Frame(f)) => assert_eq!(f, b"frame".to_vec()),
        _ => panic!("expected an inline frame"),
    }
    let mut unpacked = bytes_field(1, b"c");
    unpacked.extend(varint_field(2, 300));
    unpacked.extend(varint_field(3, 7));
    unpacked.extend(bytes_field(3, &[1, 2]));
    unpacked.extend(varint_field(9, 1));
    let r = decode_frame_ref(&unpacked).unwrap();
    assert_eq!(r.commitment, b"c".to_vec());
    assert_eq!(r.blob_length, 300);
    assert_eq!(r.quorum_ids, vec![7, 1, 2]);
    assert!(decode_calldata_frame(&[]).unwrap().is_none());
    assert!(decode_calldata_frame(&varint_field(1, 5)).is_err());
    assert!(decode_calldata_frame(&[0x0a, 0x05, 0x01]).is_err());
}

#[test]
fn rlp_byte_lists() {
    assert_eq!(byte_list(&[0xc0]), Some(vec![]));
    assert_eq!(byte_list(&rlp_byte_list(&[b"x", &[0x05]])), Some(vec![b"x".to_vec(), vec![0x05]]));
    let long: Vec<u8> = vec![0x42; 60];
    let mut enc = vec![0xb8, 60];
    enc.extend_from_slice(&long);
    assert_eq!(byte_list(&rlp_list(&[enc])), Some(vec![long]));
    assert_eq!(byte_list(&rlp_list(&[rlp_list(&[])])), None);
    assert_eq!(byte_list(&[0x83, 1]), None);
    assert_eq!(byte_list(&[0xc2, 0x81, 0x05]), None);
    assert_eq!(byte_list(&[0xc2, 0x81, 0x85]), Some(vec![vec![0x85]]));
    assert_eq!(byte_list(&[0xc5, 0xb8, 0x03, 1, 2, 3]), None);
    let mut zero_prefixed = vec![0xf9, 0x00, 0x3e, 0xb8, 60];
    zero_prefixed.extend_from_slice(&[0x42; 60]);
    assert_eq!(byte_list(&zero_prefixed), None);
}

#[test]
fn hint_tags_round_trip() {
    let h: HintWrapper<u8> = HintWrapper::from_tag("eigen-da-blob", None).unwrap();
    assert!(h.is_eigen_da_blob());
    assert_eq!(h.to_tag("unused"), "eigen-da-blob".to_string());
    let s: HintWrapper<u8> = HintWrapper::from_tag("l1-block-header", Some(3)).unwrap();
    assert!(matches!(s, HintWrapper::Standard(3)));
    assert_eq!(s.to_tag("l1-block-header"), "l1-block-header".to_string());
    let e = HintWrapper::<u8>::from_tag("eigen-da", None);
    assert_eq!(e.err(), Some(HintParsingError::UnknownHint));
}

#[test]
fn proxy_responses_and_urls() {
    assert_eq!(classify_response(200, vec![1, 2]), Ok(vec![1, 2]));
    assert_eq!(classify_response(404, vec![1]), Err(ProxyError::NotFound));
    assert_eq!(classify_response(503, vec![]), Err(ProxyError::NetworkError(503)));
    assert_eq!(request_url("http://proxy:3100", &[0xab, 0x01, 0xff]), "http://proxy:3100/get/0xab01ff");
    assert_eq!(parse_duration("120"), Some(120));
    assert_eq!(parse_duration("+5"), Some(5));
    assert_eq!(parse_duration("18446744073709551615"), Some(u64::MAX));
    assert_eq!(parse_duration("18446744073709551616"), None);
    assert_eq!(parse_duration(""), None);
    assert_eq!(parse_duration("+"), None);
    assert_eq!(parse_duration("12s"), None);
    let cfg = EigenDACfg::new();
    assert_eq!(cfg.retrieve_timeout, 120);
    assert!(cfg.proxy_url.is_none());
}

//! The derivation source: scans a block's batcher transactions for frames,
//! inline or held in data-availability blobs, and hands them out in order.

use crate::client::{blob_get, reconstruct_spec, ReconstructError};
use crate::proto::{calldata_spec, decode_calldata_frame, CalldataValue};
use crate::rlp::{byte_list, byte_list_spec};
use crate::store::{bytes_equal, KvStore};
use crate::keys::PreimageKeyType;
use vstd::prelude::*;

verus! {

/// First calldata byte of a transaction whose remaining calldata is a
/// calldata frame; other calldata is plain and is not read here.
pub const DERIVATION_VERSION_EIGEN_DA: u8 = 0xed;

/// A transaction of a block, as far as the scan reads it.
pub struct Transaction {
    /// The destination; `None` for a contract creation.
    pub to: Option<Vec<u8>>,
    /// The recovered signer; the zero address where recovery failed.
    pub signer: Vec<u8>,
    /// The calldata.
    pub input: Vec<u8>,
    /// The versioned blob hashes of a blob-carrying transaction; `None` for
    /// every other kind.
    pub blob_hashes: Option<Vec<Vec<u8>>>,
}

/// The view of a transaction: destination, signer, calldata, blob hashes.
pub open spec fn tx_view(t: Transaction) -> (Option<Seq<u8>>, Seq<u8>, Seq<u8>, Option<Seq<Seq<u8>>>) {
    (
        match t.to {
            Some(a) => Some(a@),
            None => None,
        },
        t.signer@,
        t.input@,
        match t.blob_hashes {
            Some(h) => Some(h@.map_values(|v: Vec<u8>| v@)),
            None => None,
        },
    )
}

/// The views of a sequence of transactions.
pub open spec fn txs_view(s: Seq<Transaction>) -> Seq<(Option<Seq<u8>>, Seq<u8>, Seq<u8>, Option<Seq<Seq<u8>>>)> {
    s.map_values(|t: Transaction| tx_view(t))
}

/// A blob hash and its position among all blob hashes of the block.
pub struct IndexedBlobHash {
    pub hash: Vec<u8>,
    pub index: u64,
}

/// Why loading a block's frames failed.
#[derive(Clone, Copy, Debug, PartialEq, Eq, Structural)]
pub enum SourceError {
    /// A calldata frame did not decode.
    ProtoDecodeError,
    /// A referenced blob could not be read.
    Provider(ReconstructError),
    /// A referenced blob is shorter than the length its reference declares.
    BlobTooShort,
    /// Frame data is not an RLP list of byte strings.
    RlpDecodeError,
    /// The number of plain-blob results differs from the number of blob hashes.
    MissingBlob,
    /// A plain blob could not be decoded.
    BlobDecodeError,
    /// No more frames for this block.
    Eof,
}

/// The number of blob hashes a transaction carries.
pub open spec fn blob_count(h: Option<Seq<Seq<u8>>>) -> nat {
    match h {
        Some(v) => v.len(),
        None => 0,
    }
}

/// The frames of a referenced blob: its first `blob_length` bytes, read as
/// an RLP list of byte strings.
pub open spec fn blob_frames_spec(blob: Seq<u8>, blob_length: u32) -> Result<Seq<Seq<u8>>, SourceError> {
    if blob_length > blob.len() {
        Err(SourceError::BlobTooShort)
    } else {
        match byte_list_spec(blob.subrange(0, blob_length as int)) {
            Some(l) => Ok(l),
            None => Err(SourceError::RlpDecodeError),
        }
    }
}

/// The scan state: frames so far, blob hashes with their indices, and the
/// running blob index.
pub type ScanState = (Seq<Seq<u8>>, Seq<(Seq<u8>, nat)>, nat);

/// The hashes `h`, numbered from `index` on.
pub open spec fn indexed(h: Seq<Seq<u8>>, index: nat) -> Seq<(Seq<u8>, nat)> {
    Seq::new(h.len(), |k: int| (h[k], (index + k) as nat))
}

/// One step of the scan, on transaction `tx`.
pub open spec fn scan_step(
    inbox: Seq<u8>,
    signer: Seq<u8>,
    log: Seq<((PreimageKeyType, Seq<u8>), Seq<u8>)>,
    st: ScanState,
    tx: (Option<Seq<u8>>, Seq<u8>, Seq<u8>, Option<Seq<Seq<u8>>>),
) -> Result<ScanState, SourceError> {
    let (frames, hashes, index) = st;
    let (to, from, input, blobs) = tx;
    match to {
        None => Ok(st),
        Some(to) => if to != inbox || from != signer {
            Ok((frames, hashes, index + blob_count(blobs)))
        } else if input.len() == 0 {
            match blobs {
                Some(h) => Ok((frames, hashes + indexed(h, index), index + h.len())),
                None => Ok(st),
            }
        } else if input[0] != DERIVATION_VERSION_EIGEN_DA {
            Ok(st)
        } else {
            match calldata_spec(input.drop_first()) {
                None => Err(SourceError::ProtoDecodeError),
                Some(None) => Ok(st),
                Some(Some((false, f, _))) => Ok((frames.push(f), hashes, index)),
                Some(Some((true, _, (commitment, blob_length, quorum_ids)))) => if quorum_ids.len()
                    == 0 {
                    Ok(st)
                } else {
                    match reconstruct_spec(commitment, log) {
                        Err(e) => Err(SourceError::Provider(e)),
                        Ok(blob) => match blob_frames_spec(blob, blob_length) {
                            Ok(more) => Ok((frames + more, hashes, index)),
                            Err(e) => Err(e),
                        },
                    }
                },
            }
        },
    }
}

/// The scan of the first `n` transactions of `txs`.
pub open spec fn scan_spec(
    inbox: Seq<u8>,
    signer: Seq<u8>,
    log: Seq<((PreimageKeyType, Seq<u8>), Seq<u8>)>,
    txs: Seq<(Option<Seq<u8>>, Seq<u8>, Seq<u8>, Option<Seq<Seq<u8>>>)>,
    n: nat,
) -> Result<ScanState, SourceError>
    decreases n,
{
    if n == 0 {
        Ok((Seq::empty(), Seq::empty(), 0))
    } else {
        match scan_spec(inbox, signer, log, txs, (n - 1) as nat) {
            Ok(st) => scan_step(inbox, signer, log, st, txs[n - 1]),
            Err(e) => Err(e),
        }
    }
}

/// The blob hashes on which the whole scan may depend, counted over every
/// transaction: the bound the running index has to stay under.
pub open spec fn total_blob_count(
    txs: Seq<(Option<Seq<u8>>, Seq<u8>, Seq<u8>, Option<Seq<Seq<u8>>>)>,
    n: nat,
) -> nat
    decreases n,
{
    if n == 0 {
        0
    } else {
        total_blob_count(txs, (n - 1) as nat) + blob_count(txs[n - 1].3)
    }
}

/// The decoded plain blobs that are there, laid end to end.
pub open spec fn concat_decoded(s: Seq<Option<Seq<u8>>>) -> Seq<u8>
    decreases s.len(),
{
    if s.len() == 0 {
        Seq::empty()
    } else {
        concat_decoded(s.drop_last()) + match s.last() {
            Some(b) => b,
            None => Seq::empty(),
        }
    }
}

/// The views of the decoder's results on the plain blobs.
pub open spec fn plain_view(s: Seq<Option<Vec<u8>>>) -> Seq<Option<Seq<u8>>> {
    s.map_values(|o: Option<Vec<u8>>| match o {
        Some(b) => Some(b@),
        None => None,
    })
}

/// The frames of the plain blobs of a block, given the blob decoder's result
/// on each blob that the scan's hashes name (`None` where it failed): none
/// where the scan found no blob hash; an error where a blob is missing or
/// did not decode; else the decoded blobs laid end to end, read as an RLP
/// list of byte strings.
pub open spec fn plain_frames_spec(hashes: Seq<(Seq<u8>, nat)>, plain: Seq<Option<Seq<u8>>>) -> Result<
    Seq<Seq<u8>>,
    SourceError,
> {
    if hashes.len() == 0 {
        Ok(Seq::empty())
    } else if plain.len() != hashes.len() {
        Err(SourceError::MissingBlob)
    } else if exists|i: int| 0 <= i < plain.len() && #[trigger] plain[i] is None {
        Err(SourceError::BlobDecodeError)
    } else {
        match byte_list_spec(concat_decoded(plain)) {
            Some(l) => Ok(l),
            None => Err(SourceError::RlpDecodeError),
        }
    }
}

/// Every frame of a block: those of its calldata and referenced blobs in
/// scan order, then those of its plain blobs.
pub open spec fn frames_spec(
    inbox: Seq<u8>,
    signer: Seq<u8>,
    log: Seq<((PreimageKeyType, Seq<u8>), Seq<u8>)>,
    txs: Seq<(Option<Seq<u8>>, Seq<u8>, Seq<u8>, Option<Seq<Seq<u8>>>)>,
    plain: Seq<Option<Seq<u8>>>,
) -> Result<Seq<Seq<u8>>, SourceError> {
    match scan_spec(inbox, signer, log, txs, txs.len()) {
        Err(e) => Err(e),
        Ok((frames, hashes, _)) => match plain_frames_spec(hashes, plain) {
            Ok(more) => Ok(frames + more),
            Err(e) => Err(e),
        },
    }
}

/// The state of a source after a load: unchanged where it was open or the
/// load failed; else open, holding the block's frames.
pub open spec fn load_spec(
    st: (Seq<u8>, Seq<Seq<u8>>, bool),
    signer: Seq<u8>,
    log: Seq<((PreimageKeyType, Seq<u8>), Seq<u8>)>,
    txs: Seq<(Option<Seq<u8>>, Seq<u8>, Seq<u8>, Option<Seq<Seq<u8>>>)>,
    plain: Seq<Option<Seq<u8>>>,
) -> (Seq<u8>, Seq<Seq<u8>>, bool) {
    if st.2 {
        st
    } else {
        match frames_spec(st.0, signer, log, txs, plain) {
            Ok(f) => (st.0, f, true),
            Err(_) => st,
        }
    }
}

/// The state of a source after `clear`.
pub open spec fn clear_spec(st: (Seq<u8>, Seq<Seq<u8>>, bool)) -> (Seq<u8>, Seq<Seq<u8>>, bool) {
    (st.0, Seq::empty(), false)
}

/// The result and state of handing out the oldest queued frame.
pub open spec fn next_data_spec(st: (Seq<u8>, Seq<Seq<u8>>, bool)) -> (
    Result<Seq<u8>, SourceError>,
    (Seq<u8>, Seq<Seq<u8>>, bool),
) {
    if st.1.len() == 0 {
        (Err(SourceError::Eof), st)
    } else {
        (Ok(st.1[0]), (st.0, st.1.drop_first(), st.2))
    }
}

/// The result and state of one pull: load where closed, then hand out the
/// oldest frame; a failed load changes nothing.
pub open spec fn next_spec(
    st: (Seq<u8>, Seq<Seq<u8>>, bool),
    signer: Seq<u8>,
    log: Seq<((PreimageKeyType, Seq<u8>), Seq<u8>)>,
    txs: Seq<(Option<Seq<u8>>, Seq<u8>, Seq<u8>, Option<Seq<Seq<u8>>>)>,
    plain: Seq<Option<Seq<u8>>>,
) -> (Result<Seq<u8>, SourceError>, (Seq<u8>, Seq<Seq<u8>>, bool)) {
    if !st.2 && frames_spec(st.0, signer, log, txs, plain) is Err {
        (Err(frames_spec(st.0, signer, log, txs, plain)->Err_0), st)
    } else {
        next_data_spec(load_spec(st, signer, log, txs, plain))
    }
}

/// The state after `k` pulls.
pub open spec fn pulls(
    st: (Seq<u8>, Seq<Seq<u8>>, bool),
    signer: Seq<u8>,
    log: Seq<((PreimageKeyType, Seq<u8>), Seq<u8>)>,
    txs: Seq<(Option<Seq<u8>>, Seq<u8>, Seq<u8>, Option<Seq<Seq<u8>>>)>,
    plain: Seq<Option<Seq<u8>>>,
    k: nat,
) -> (Seq<u8>, Seq<Seq<u8>>, bool)
    decreases k,
{
    if k == 0 {
        st
    } else {
        next_spec(pulls(st, signer, log, txs, plain, (k - 1) as nat), signer, log, txs, plain).1
    }
}

proof fn lemma_pulls_state(
    st: (Seq<u8>, Seq<Seq<u8>>, bool),
    signer: Seq<u8>,
    log: Seq<((PreimageKeyType, Seq<u8>), Seq<u8>)>,
    txs: Seq<(Option<Seq<u8>>, Seq<u8>, Seq<u8>, Option<Seq<Seq<u8>>>)>,
    plain: Seq<Option<Seq<u8>>>,
    k: nat,
)
    requires
        !st.2,
        frames_spec(st.0, signer, log, txs, plain) is Ok,
        k >= 1,
    ensures
        ({
            let f = frames_spec(st.0, signer, log, txs, plain)->Ok_0;
            let m = if k <= f.len() { k as int } else { f.len() as int };
            pulls(st, signer, log, txs, plain, k) == (st.0, f.subrange(m, f.len() as int), true)
        }),
    decreases k,
{
    let f = frames_spec(st.0, signer, log, txs, plain)->Ok_0;
    let prev = pulls(st, signer, log, txs, plain, (k - 1) as nat);
    assert(pulls(st, signer, log, txs, plain, k) == next_spec(prev, signer, log, txs, plain).1);
    if k == 1 {
        assert(prev == st);
        assert(load_spec(st, signer, log, txs, plain) == (st.0, f, true));
        if f.len() > 0 {
            assert(f.drop_first() =~= f.subrange(1, f.len() as int));
        } else {
            assert(f =~= f.subrange(0, 0));
        }
    } else {
        lemma_pulls_state(st, signer, log, txs, plain, (k - 1) as nat);
        let m = if k - 1 <= f.len() { (k - 1) as int } else { f.len() as int };
        let q = f.subrange(m, f.len() as int);
        assert(prev == (st.0, q, true));
        assert(load_spec(prev, signer, log, txs, plain) == prev);
        if q.len() > 0 {
            assert(q.drop_first() =~= f.subrange(m + 1, f.len() as int));
        }
    }
}

/// Pulling from a closed source hands out the frames of the block one by
/// one: those of its calldata and referenced blobs in scan order, then those
/// of its plain blobs, then `Eof` on every further pull. Clearing the source
/// after any number of pulls and pulling again hands out the same sequence.
pub proof fn lemma_pull_sequence(
    st: (Seq<u8>, Seq<Seq<u8>>, bool),
    signer: Seq<u8>,
    log: Seq<((PreimageKeyType, Seq<u8>), Seq<u8>)>,
    txs: Seq<(Option<Seq<u8>>, Seq<u8>, Seq<u8>, Option<Seq<Seq<u8>>>)>,
    plain: Seq<Option<Seq<u8>>>,
    j: nat,
    k: nat,
)
    requires
        !st.2,
        frames_spec(st.0, signer, log, txs, plain) is Ok,
    ensures
        scan_spec(st.0, signer, log, txs, txs.len()) matches Ok((sf, h, _)) && plain_frames_spec(
            h,
            plain,
        ) matches Ok(pf) && ({
            let f = sf + pf;
            &&& k < f.len() ==> next_spec(pulls(st, signer, log, txs, plain, k), signer, log, txs, plain).0
                == Ok::<_, SourceError>(f[k as int])
            &&& k >= f.len() ==> next_spec(pulls(st, signer, log, txs, plain, k), signer, log, txs, plain).0
                == Err::<Seq<u8>, _>(SourceError::Eof)
        }),
        next_spec(
            pulls(clear_spec(pulls(st, signer, log, txs, plain, j)), signer, log, txs, plain, k),
            signer,
            log,
            txs,
            plain,
        ).0 == next_spec(pulls(st, signer, log, txs, plain, k), signer, log, txs, plain).0,
{
    let f = frames_spec(st.0, signer, log, txs, plain)->Ok_0;
    let c = clear_spec(pulls(st, signer, log, txs, plain, j));
    if j >= 1 {
        lemma_pulls_state(st, signer, log, txs, plain, j);
    }
    assert(c.0 == st.0);
    if k >= 1 {
        lemma_pulls_state(st, signer, log, txs, plain, k);
        lemma_pulls_state(c, signer, log, txs, plain, k);
        let m = if k <= f.len() { k as int } else { f.len() as int };
        if k < f.len() {
            assert(f.subrange(m, f.len() as int)[0] == f[k as int]);
        }
    }
}

/// The frames of a referenced blob.
pub fn blob_frames(blob: &[u8], blob_length: u32) -> (r: Result<Vec<Vec<u8>>, SourceError>)
    ensures
        r matches Ok(v) ==> blob_frames_spec(blob@, blob_length) == Ok::<_, SourceError>(
            v@.map_values(|b: Vec<u8>| b@),
        ),
        r matches Err(e) ==> blob_frames_spec(blob@, blob_length) == Err::<Seq<Seq<u8>>, _>(e),
{
    if blob_length as usize > blob.len() {
        return Err(SourceError::BlobTooShort);
    }
    let head = blob.split_at(blob_length as usize).0;
    match byte_list(head) {
        Some(l) => Ok(l),
        None => Err(SourceError::RlpDecodeError),
    }
}

fn append_frames(frames: &mut Vec<Vec<u8>>, more: Vec<Vec<u8>>)
    ensures
        final(frames)@.map_values(|b: Vec<u8>| b@) == old(frames)@.map_values(|b: Vec<u8>| b@)
            + more@.map_values(|b: Vec<u8>| b@),
{
    let mut k: usize = 0;
    let ghost base = frames@.map_values(|b: Vec<u8>| b@);
    while k < more.len()
        invariant
            k <= more@.len(),
            frames@.map_values(|b: Vec<u8>| b@) == base + more@.map_values(|b: Vec<u8>| b@).subrange(0, k as int),
        decreases more@.len() - k,
    {
        let c = more[k].clone();
        let ghost prev = frames@;
        frames.push(c);
        proof {
            assert(c@ == more@[k as int]@);
            assert(frames@.map_values(|b: Vec<u8>| b@) =~= prev.map_values(|b: Vec<u8>| b@).push(c@));
            assert(more@.map_values(|b: Vec<u8>| b@).subrange(0, k + 1) =~= more@.map_values(|b: Vec<u8>| b@).subrange(0, k as int).push(c@));
        }
        k = k + 1;
        assert(frames@.map_values(|b: Vec<u8>| b@) =~= base + more@.map_values(|b: Vec<u8>| b@).subrange(0, k as int));
    }
    assert(more@.map_values(|b: Vec<u8>| b@).subrange(0, k as int) =~= more@.map_values(|b: Vec<u8>| b@));
}

/// The views of frames.
pub open spec fn frames_view(s: Seq<Vec<u8>>) -> Seq<Seq<u8>> {
    s.map_values(|b: Vec<u8>| b@)
}

/// The views of indexed blob hashes.
pub open spec fn hashes_view(s: Seq<IndexedBlobHash>) -> Seq<(Seq<u8>, nat)> {
    s.map_values(|h: IndexedBlobHash| (h.hash@, h.index as nat))
}

proof fn lemma_total_blob_count_mono(
    txs: Seq<(Option<Seq<u8>>, Seq<u8>, Seq<u8>, Option<Seq<Seq<u8>>>)>,
    k: nat,
    n: nat,
)
    requires
        k <= n,
    ensures
        total_blob_count(txs, k) <= total_blob_count(txs, n),
    decreases n,
{
    if k < n {
        lemma_total_blob_count_mono(txs, k, (n - 1) as nat);
    }
}

proof fn lemma_scan_stays_err(
    inbox: Seq<u8>,
    signer: Seq<u8>,
    log: Seq<((PreimageKeyType, Seq<u8>), Seq<u8>)>,
    txs: Seq<(Option<Seq<u8>>, Seq<u8>, Seq<u8>, Option<Seq<Seq<u8>>>)>,
    k: nat,
    n: nat,
    e: SourceError,
)
    requires
        k <= n,
        scan_spec(inbox, signer, log, txs, k) == Err::<ScanState, _>(e),
    ensures
        scan_spec(inbox, signer, log, txs, n) == Err::<ScanState, _>(e),
    decreases n,
{
    if k < n {
        lemma_scan_stays_err(inbox, signer, log, txs, k, (n - 1) as nat, e);
    }
}

/// Scans the transactions of a block: the frames of its calldata and of the
/// blobs it references, read from `store`, in order; and the blob hashes of
/// its plain blob transactions with their indices.
pub fn scan_transactions(
    inbox: &[u8],
    signer: &[u8],
    store: &KvStore,
    txs: &Vec<Transaction>,
) -> (r: Result<(Vec<Vec<u8>>, Vec<IndexedBlobHash>), SourceError>)
    requires
        total_blob_count(txs_view(txs@), txs@.len()) < 0x1_0000_0000_0000_0000,
    ensures
        r matches Ok((f, h)) ==> scan_spec(inbox@, signer@, store@, txs_view(txs@), txs@.len())
            matches Ok((sf, sh, _)) && sf == frames_view(f@) && sh == hashes_view(h@),
        r matches Err(e) ==> scan_spec(inbox@, signer@, store@, txs_view(txs@), txs@.len()) == Err::<
            ScanState,
            _,
        >(e),
{
    let ghost tv = txs_view(txs@);
    let mut frames: Vec<Vec<u8>> = Vec::new();
    let mut hashes: Vec<IndexedBlobHash> = Vec::new();
    let mut index: u64 = 0;
    let mut i: usize = 0;
    assert(frames_view(frames@) =~= Seq::<Seq<u8>>::empty());
    assert(hashes_view(hashes@) =~= Seq::<(Seq<u8>, nat)>::empty());
    while i < txs.len()
        invariant
            i <= txs@.len(),
            tv == txs_view(txs@),
            total_blob_count(tv, txs@.len()) < 0x1_0000_0000_0000_0000,
            index <= total_blob_count(tv, i as nat),
            scan_spec(inbox@, signer@, store@, tv, i as nat) == Ok::<_, SourceError>(
                (frames_view(frames@), hashes_view(hashes@), index as nat),
            ),
        decreases txs@.len() - i,
    {
        let tx = &txs[i];
        let ghost st = (frames_view(frames@), hashes_view(hashes@), index as nat);
        let ghost t = tv[i as int];
        proof {
            assert(t == tx_view(*tx));
            lemma_total_blob_count_mono(tv, (i + 1) as nat, txs@.len());
        }
        let n_blobs: u64 = match &tx.blob_hashes {
            Some(h) => h.len() as u64,
            None => 0,
        };
        assert(n_blobs == blob_count(t.3));
        match &tx.to {
            None => {},
            Some(to) => {
                if !bytes_equal(to.as_slice(), inbox) || !bytes_equal(tx.signer.as_slice(), signer) {
                    index = index + n_blobs;
                } else if tx.input.len() == 0 {
                    match &tx.blob_hashes {
                        Some(h) => {
                            let ghost hv = h@.map_values(|v: Vec<u8>| v@);
                            let ghost base = hashes_view(hashes@);
                            let mut k: usize = 0;
                            while k < h.len()
                                invariant
                                    k <= h@.len(),
                                    hv == h@.map_values(|v: Vec<u8>| v@),
                                    index + h@.len() < 0x1_0000_0000_0000_0000,
                                    hashes_view(hashes@) == base + indexed(hv, index as nat).subrange(0, k as int),
                                decreases h@.len() - k,
                            {
                                let hash = h[k].clone();
                                let ghost prev = hashes@;
                                hashes.push(IndexedBlobHash { hash, index: index + k as u64 });
                                proof {
                                    assert(hashes_view(hashes@) =~= hashes_view(prev).push((hv[k as int], (index + k) as nat)));
                                    assert(indexed(hv, index as nat).subrange(0, k + 1) =~= indexed(hv, index as nat).subrange(0, k as int).push((hv[k as int], (index + k) as nat)));
                                }
                                k = k + 1;
                            }
                            assert(indexed(hv, index as nat).subrange(0, k as int) =~= indexed(hv, index as nat));
                            index = index + n_blobs;
                        },
                        None => {},
                    }
                } else if tx.input[0] != DERIVATION_VERSION_EIGEN_DA {
                } else {
                    let body = tx.input.as_slice().split_at(1).1;
                    assert(body@ == t.2.drop_first());
                    match decode_calldata_frame(body) {
                        Err(_) => {
                            proof {
                                lemma_scan_stays_err(inbox@, signer@, store@, tv, (i + 1) as nat, txs@.len(), SourceError::ProtoDecodeError);
                            }
                            return Err(SourceError::ProtoDecodeError);
                        },
                        Ok(None) => {},
                        Ok(Some(CalldataValue::Frame(f))) => {
                            let ghost prev = frames@;
                            frames.push(f);
                            assert(frames_view(frames@) =~= frames_view(prev).push(f@));
                        },
                        Ok(Some(CalldataValue::FrameRef(fr))) => {
                            if fr.quorum_ids.len() > 0 {
                                let blob = match blob_get(store, fr.commitment.as_slice()) {
                                    Ok(b) => b,
                                    Err(e) => {
                                        proof {
                                            lemma_scan_stays_err(inbox@, signer@, store@, tv, (i + 1) as nat, txs@.len(), SourceError::Provider(e));
                                        }
                                        return Err(SourceError::Provider(e));
                                    },
                                };
                                match blob_frames(blob.as_slice(), fr.blob_length) {
                                    Ok(more) => {
                                        let ghost prev = frames@;
                                        append_frames(&mut frames, more);
                                        assert(frames_view(frames@) =~= frames_view(prev) + frames_view(more@));
                                    },
                                    Err(e) => {
                                        proof {
                                            lemma_scan_stays_err(inbox@, signer@, store@, tv, (i + 1) as nat, txs@.len(), e);
                                        }
                                        return Err(e);
                                    },
                                }
                            }
                        },
                    }
                }
            },
        }
        i = i + 1;
    }
    Ok((frames, hashes))
}

/// The frames of the plain blobs of a block; `plain` holds the blob
/// decoder's result on each blob that `hashes` names.
pub fn plain_blob_frames(hashes: &Vec<IndexedBlobHash>, plain: &Vec<Option<Vec<u8>>>) -> (r: Result<
    Vec<Vec<u8>>,
    SourceError,
>)
    ensures
        r matches Ok(v) ==> plain_frames_spec(hashes_view(hashes@), plain_view(plain@)) == Ok::<
            _,
            SourceError,
        >(frames_view(v@)),
        r matches Err(e) ==> plain_frames_spec(hashes_view(hashes@), plain_view(plain@)) == Err::<
            Seq<Seq<u8>>,
            _,
        >(e),
{
    if hashes.len() == 0 {
        let v: Vec<Vec<u8>> = Vec::new();
        assert(frames_view(v@) =~= Seq::<Seq<u8>>::empty());
        return Ok(v);
    }
    if plain.len() != hashes.len() {
        return Err(SourceError::MissingBlob);
    }
    let ghost pv = plain_view(plain@);
    let mut whole: Vec<u8> = Vec::new();
    let mut i: usize = 0;
    while i < plain.len()
        invariant
            i <= plain@.len(),
            pv == plain_view(plain@),
            pv.len() == plain@.len(),
            hashes_view(hashes@).len() == plain@.len() > 0,
            forall|j: int| 0 <= j < i ==> !(#[trigger] pv[j] is None),
            whole@ == concat_decoded(pv.subrange(0, i as int)),
        decreases plain@.len() - i,
    {
        proof {
            let t = pv.subrange(0, i + 1);
            assert(t.drop_last() =~= pv.subrange(0, i as int));
            assert(t.last() == pv[i as int]);
        }
        match &plain[i] {
            Some(b) => {
                whole.extend_from_slice(b.as_slice());
            },
            None => {
                assert(pv[i as int] is None);
                return Err(SourceError::BlobDecodeError);
            },
        }
        i = i + 1;
    }
    assert(pv.subrange(0, i as int) =~= pv);
    match byte_list(whole.as_slice()) {
        Some(l) => Ok(l),
        None => Err(SourceError::RlpDecodeError),
    }
}

/// A pull-based source of frames for one block at a time. It is closed until
/// the first pull loads the block's frames, and `clear` closes it again.
pub struct EigenDASource {
    /// The address that batcher transactions are sent to.
    pub batcher_address: Vec<u8>,
    data: Vec<Vec<u8>>,
    open: bool,
}

impl View for EigenDASource {
    type V = (Seq<u8>, Seq<Seq<u8>>, bool);

    /// The batcher address, the frames not yet handed out, and whether the
    /// source is open.
    closed spec fn view(&self) -> (Seq<u8>, Seq<Seq<u8>>, bool) {
        (self.batcher_address@, frames_view(self.data@), self.open)
    }
}

impl EigenDASource {
    /// A closed source for batcher transactions sent to `batcher_address`.
    pub fn new(batcher_address: Vec<u8>) -> (r: EigenDASource)
        ensures
            r@ == (batcher_address@, Seq::<Seq<u8>>::empty(), false),
    {
        let r = EigenDASource { batcher_address, data: Vec::new(), open: false };
        assert(frames_view(r.data@) =~= Seq::<Seq<u8>>::empty());
        r
    }

    /// Loads the frames of a block unless the source is open: the block's
    /// transactions, referenced blobs read from `store`, and the blob
    /// decoder's result on each plain blob that the scan's blob hashes name
    /// (`None` where it failed, which fails the load). On failure nothing
    /// changes.
    pub fn load_blobs(
        &mut self,
        store: &KvStore,
        txs: &Vec<Transaction>,
        signer: &[u8],
        plain: &Vec<Option<Vec<u8>>>,
    ) -> (r: Result<(), SourceError>)
        requires
            total_blob_count(txs_view(txs@), txs@.len()) < 0x1_0000_0000_0000_0000,
        ensures
            final(self)@ == load_spec(old(self)@, signer@, store@, txs_view(txs@), plain_view(plain@)),
            old(self)@.2 ==> r is Ok,
            !old(self)@.2 ==> match frames_spec(
                old(self)@.0,
                signer@,
                store@,
                txs_view(txs@),
                plain_view(plain@),
            ) {
                Ok(f) => r is Ok && final(self)@ == (old(self)@.0, f, true),
                Err(e) => r == Err::<(), _>(e) && final(self)@ == old(self)@,
            },
    {
        if self.open {
            return Ok(());
        }
        let (mut frames, hashes) = match scan_transactions(
            self.batcher_address.as_slice(),
            signer,
            store,
            txs,
        ) {
            Ok(p) => p,
            Err(e) => return Err(e),
        };
        let more = match plain_blob_frames(&hashes, plain) {
            Ok(m) => m,
            Err(e) => return Err(e),
        };
        let ghost prev = frames@;
        append_frames(&mut frames, more);
        self.data = frames;
        self.open = true;
        Ok(())
    }

    /// Hands out the oldest frame not yet handed out; `Eof` where none is
    /// left.
    pub fn next_data(&mut self) -> (r: Result<Vec<u8>, SourceError>)
        ensures
            old(self)@.1.len() == 0 ==> r == Err::<Vec<u8>, _>(SourceError::Eof) && final(self)@
                == old(self)@,
            old(self)@.1.len() > 0 ==> (r matches Ok(d) && d@ == old(self)@.1[0] && final(self)@ == (
                old(self)@.0,
                old(self)@.1.drop_first(),
                old(self)@.2,
            )),
    {
        if self.data.len() == 0 {
            return Err(SourceError::Eof);
        }
        let ghost prev = self.data@;
        let d = self.data.remove(0);
        assert(frames_view(self.data@) =~= frames_view(prev).drop_first());
        Ok(d)
    }

    /// Loads the block's frames where the source is closed, then hands out
    /// the oldest frame not yet handed out.
    pub fn next(
        &mut self,
        store: &KvStore,
        txs: &Vec<Transaction>,
        signer: &[u8],
        plain: &Vec<Option<Vec<u8>>>,
    ) -> (r: Result<Vec<u8>, SourceError>)
        requires
            total_blob_count(txs_view(txs@), txs@.len()) < 0x1_0000_0000_0000_0000,
        ensures
            final(self)@ == next_spec(old(self)@, signer@, store@, txs_view(txs@), plain_view(plain@)).1,
            r matches Ok(d) ==> next_spec(old(self)@, signer@, store@, txs_view(txs@), plain_view(plain@)).0
                == Ok::<_, SourceError>(d@),
            r matches Err(e) ==> next_spec(old(self)@, signer@, store@, txs_view(txs@), plain_view(plain@)).0
                == Err::<Seq<u8>, _>(e),
            ({
                let loaded = if old(self)@.2 {
                    Ok(old(self)@.1)
                } else {
                    frames_spec(old(self)@.0, signer@, store@, txs_view(txs@), plain_view(plain@))
                };
                match loaded {
                    Err(e) => r == Err::<Vec<u8>, _>(e) && final(self)@ == old(self)@,
                    Ok(f) => if f.len() == 0 {
                        r == Err::<Vec<u8>, _>(SourceError::Eof) && final(self)@ == (old(self)@.0, f, true)
                    } else {
                        (r matches Ok(d) && d@ == f[0] && final(self)@ == (old(self)@.0, f.drop_first(), true))
                    },
                }
            }),
    {
        match self.load_blobs(store, txs, signer, plain) {
            Ok(()) => {},
            Err(e) => return Err(e),
        }
        self.next_data()
    }

    /// Closes the source and drops the frames not yet handed out.
    pub fn clear(&mut self)
        ensures
            final(self)@ == (old(self)@.0, Seq::<Seq<u8>>::empty(), false),
    {
        self.data = Vec::new();
        self.open = false;
        assert(frames_view(self.data@) =~= Seq::<Seq<u8>>::empty());
    }
}

} // verus!

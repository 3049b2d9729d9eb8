//! The blob codec: a 32-byte header carrying a version and the payload's
//! length, followed by field elements whose first byte is padding.

use crate::rlp::be_value;
use vstd::prelude::*;

verus! {

/// Bytes of the codec header at the start of an encoded blob.
pub const CODEC_HEADER_LEN: usize = 32;

/// The only codec version: header byte 1 holds it.
pub const BLOB_ENCODING_VERSION_0: u8 = 0;

/// `body` with the first byte of every 32-byte chunk taken out.
pub open spec fn unpad(body: Seq<u8>) -> Seq<u8>
    decreases body.len(),
{
    if body.len() == 0 {
        Seq::empty()
    } else if body.len() <= 32 {
        body.subrange(1, body.len() as int)
    } else {
        body.subrange(1, 32) + unpad(body.subrange(32, body.len() as int))
    }
}

/// The payload of an encoded blob: the header must be complete and carry
/// version 0; its bytes 2 to 5 give the payload length, big-endian; the payload
/// is the start of the unpadded body, which must be at least that long.
pub open spec fn blob_decode_spec(b: Seq<u8>) -> Option<Seq<u8>> {
    if b.len() < CODEC_HEADER_LEN || b[1] != BLOB_ENCODING_VERSION_0 {
        None
    } else {
        let size = be_value(b.subrange(2, 6));
        let u = unpad(b.subrange(CODEC_HEADER_LEN as int, b.len() as int));
        if u.len() < size {
            None
        } else {
            Some(u.subrange(0, size as int))
        }
    }
}

/// What went wrong when decoding a blob.
#[derive(Clone, Copy, Debug, PartialEq, Eq, Structural)]
pub enum BlobDecodeError {
    /// Shorter than the codec header.
    TooShort,
    /// A version other than 0.
    UnknownVersion,
    /// The body holds fewer bytes than the header announces.
    Truncated,
}

/// The error that decoding `b` ends in, where it fails.
pub open spec fn blob_decode_error(b: Seq<u8>) -> BlobDecodeError {
    if b.len() < CODEC_HEADER_LEN {
        BlobDecodeError::TooShort
    } else if b[1] != BLOB_ENCODING_VERSION_0 {
        BlobDecodeError::UnknownVersion
    } else {
        BlobDecodeError::Truncated
    }
}

/// The payload length that an encoded blob announces.
fn announced_size(b: &[u8]) -> (r: u64)
    requires
        b@.len() >= 6,
    ensures
        r == be_value(b@.subrange(2, 6)),
{
    let ghost s = b@.subrange(2, 6);
    assert(s.drop_last().drop_last().drop_last().drop_last() =~= Seq::<u8>::empty());
    assert(s.drop_last().drop_last().drop_last().last() == b@[2]);
    assert(s.drop_last().drop_last().last() == b@[3]);
    assert(s.drop_last().last() == b@[4]);
    assert(s.last() == b@[5]);
    reveal_with_fuel(be_value, 5);
    ((b[2] as u64 * 256 + b[3] as u64) * 256 + b[4] as u64) * 256 + b[5] as u64
}

/// Decodes an encoded blob into its payload.
pub fn decode_blob(b: &[u8]) -> (r: Result<Vec<u8>, BlobDecodeError>)
    ensures
        r matches Ok(p) ==> blob_decode_spec(b@) == Some(p@),
        r is Err ==> blob_decode_spec(b@) is None,
        r matches Err(e) ==> e == blob_decode_error(b@),
{
    if b.len() < CODEC_HEADER_LEN {
        return Err(BlobDecodeError::TooShort);
    }
    if b[1] != BLOB_ENCODING_VERSION_0 {
        return Err(BlobDecodeError::UnknownVersion);
    }
    let size = announced_size(b);
    let n = b.len();
    let ghost body = b@.subrange(CODEC_HEADER_LEN as int, n as int);
    let mut u: Vec<u8> = Vec::new();
    let mut c: usize = CODEC_HEADER_LEN;
    assert(b@.subrange(c as int, n as int) == body);
    while c < n
        invariant
            CODEC_HEADER_LEN <= c <= n == b@.len(),
            body == b@.subrange(CODEC_HEADER_LEN as int, n as int),
            u@ + unpad(b@.subrange(c as int, n as int)) == unpad(body),
        decreases n - c,
    {
        let end: usize = if n - c <= 32 { n } else { c + 32 };
        let mut j: usize = c + 1;
        let ghost before = u@;
        while j < end
            invariant
                c < j <= end <= n == b@.len(),
                u@ == before + b@.subrange(c + 1, j as int),
            decreases end - j,
        {
            u.push(b[j]);
            j = j + 1;
            assert(u@ =~= before + b@.subrange(c + 1, j as int));
        }
        proof {
            let rest = b@.subrange(c as int, n as int);
            if n - c <= 32 {
                assert(rest.subrange(1, rest.len() as int) =~= b@.subrange(c + 1, n as int));
                assert(b@.subrange(n as int, n as int) =~= Seq::<u8>::empty());
                assert(unpad(b@.subrange(n as int, n as int)) =~= Seq::<u8>::empty());
                assert(u@ + unpad(b@.subrange(end as int, n as int)) =~= u@);
            } else {
                assert(rest.subrange(1, 32) =~= b@.subrange(c + 1, c + 32));
                assert(rest.subrange(32, rest.len() as int) =~= b@.subrange(c + 32, n as int));
                assert(before + unpad(rest) =~= u@ + unpad(b@.subrange(end as int, n as int)));
            }
        }
        c = end;
    }
    proof {
        assert(b@.subrange(n as int, n as int) =~= Seq::<u8>::empty());
        assert(u@ + Seq::<u8>::empty() =~= u@);
    }
    if (u.len() as u64) < size {
        return Err(BlobDecodeError::Truncated);
    }
    u.truncate(size as usize);
    Ok(u)
}

/// `p` cut into 31-byte chunks, each led by a zero byte so that every
/// 32-byte field element stays below the field modulus.
pub open spec fn pad_spec(p: Seq<u8>) -> Seq<u8>
    decreases p.len(),
{
    if p.len() == 0 {
        Seq::empty()
    } else if p.len() <= 31 {
        seq![0u8] + p
    } else {
        seq![0u8] + p.subrange(0, 31) + pad_spec(p.subrange(31, p.len() as int))
    }
}

/// The codec header of a payload of `n` bytes: version 0 at byte 1, `n` in
/// big-endian order at bytes 2 to 5, zeros elsewhere.
pub open spec fn codec_header(n: nat) -> Seq<u8> {
    seq![
        0u8,
        BLOB_ENCODING_VERSION_0,
        (n / 0x100_0000 % 256) as u8,
        (n / 0x1_0000 % 256) as u8,
        (n / 256 % 256) as u8,
        (n % 256) as u8,
    ] + Seq::new(26, |k: int| 0u8)
}

/// The encoded form of payload `p`: the codec header, then `p` padded.
pub open spec fn blob_encode_spec(p: Seq<u8>) -> Seq<u8> {
    codec_header(p.len()) + pad_spec(p)
}

/// Taking the padding out gives the payload back.
pub proof fn lemma_unpad_pad(p: Seq<u8>)
    ensures
        unpad(pad_spec(p)) == p,
    decreases p.len(),
{
    if p.len() == 0 {
    } else if p.len() <= 31 {
        assert((seq![0u8] + p).subrange(1, p.len() as int + 1) =~= p);
    } else {
        let rest = p.subrange(31, p.len() as int);
        let q = pad_spec(p);
        lemma_unpad_pad(rest);
        assert(q.subrange(1, 32) =~= p.subrange(0, 31));
        assert(q.subrange(32, q.len() as int) =~= pad_spec(rest));
        assert(p.subrange(0, 31) + rest =~= p);
    }
}

proof fn lemma_header_value(n: nat)
    requires
        n < 0x1_0000_0000,
    ensures
        crate::rlp::be_value(codec_header(n).subrange(2, 6)) == n,
{
    let h = codec_header(n).subrange(2, 6);
    reveal_with_fuel(crate::rlp::be_value, 5);
    assert(h.drop_last().drop_last().drop_last().drop_last() =~= Seq::<u8>::empty());
    let a = n / 256;
    let b = a / 256;
    let c = b / 256;
    assert(n / 0x1_0000 == b) by {
        vstd::arithmetic::div_mod::lemma_div_denominator(n as int, 256, 256);
    }
    assert(n / 0x100_0000 == c) by {
        vstd::arithmetic::div_mod::lemma_div_denominator(n as int, 256, 256);
        vstd::arithmetic::div_mod::lemma_div_denominator(n as int, 0x1_0000, 256);
    }
    assert(c < 256);
    assert(h.drop_last().drop_last().drop_last().last() == c as u8);
    assert(h.drop_last().drop_last().last() == (b % 256) as u8);
    assert(h.drop_last().last() == (a % 256) as u8);
    assert(h.last() == (n % 256) as u8);
}

/// Decoding the encoded form of a payload gives the payload back.
pub proof fn lemma_decode_encode(p: Seq<u8>)
    requires
        p.len() < 0x1_0000_0000,
    ensures
        blob_decode_spec(blob_encode_spec(p)) == Some(p),
{
    let e = blob_encode_spec(p);
    lemma_header_value(p.len());
    assert(e.subrange(2, 6) =~= codec_header(p.len()).subrange(2, 6));
    assert(e.subrange(CODEC_HEADER_LEN as int, e.len() as int) =~= pad_spec(p));
    lemma_unpad_pad(p);
    assert(p.subrange(0, p.len() as int) =~= p);
}

/// Encodes a payload into the blob form that field elements carry.
pub fn encode_blob(p: &[u8]) -> (r: Vec<u8>)
    requires
        p@.len() < 0x1_0000_0000,
    ensures
        r@ == blob_encode_spec(p@),
{
    let n = p.len() as u64;
    let mut r: Vec<u8> = Vec::new();
    r.push(0u8);
    r.push(BLOB_ENCODING_VERSION_0);
    r.push((n / 0x100_0000 % 256) as u8);
    r.push((n / 0x1_0000 % 256) as u8);
    r.push((n / 256 % 256) as u8);
    r.push((n % 256) as u8);
    let mut k: usize = 0;
    while k < 26
        invariant
            k <= 26,
            r@ == seq![
                0u8,
                BLOB_ENCODING_VERSION_0,
                (n / 0x100_0000 % 256) as u8,
                (n / 0x1_0000 % 256) as u8,
                (n / 256 % 256) as u8,
                (n % 256) as u8,
            ] + Seq::new(k as nat, |j: int| 0u8),
        decreases 26 - k,
    {
        r.push(0u8);
        k = k + 1;
        assert(r@ =~= seq![
            0u8,
            BLOB_ENCODING_VERSION_0,
            (n / 0x100_0000 % 256) as u8,
            (n / 0x1_0000 % 256) as u8,
            (n / 256 % 256) as u8,
            (n % 256) as u8,
        ] + Seq::new(k as nat, |j: int| 0u8));
    }
    assert(r@ =~= codec_header(p@.len()));
    let len = p.len();
    let mut c: usize = 0;
    assert(p@.subrange(0, len as int) =~= p@);
    while c < len
        invariant
            c <= len == p@.len(),
            r@ + pad_spec(p@.subrange(c as int, len as int)) == blob_encode_spec(p@),
        decreases len - c,
    {
        let end: usize = if len - c <= 31 { len } else { c + 31 };
        let ghost before = r@;
        r.push(0u8);
        let mut j: usize = c;
        while j < end
            invariant
                c <= j <= end <= len == p@.len(),
                r@ == before + seq![0u8] + p@.subrange(c as int, j as int),
            decreases end - j,
        {
            r.push(p[j]);
            j = j + 1;
            assert(r@ =~= before + seq![0u8] + p@.subrange(c as int, j as int));
        }
        proof {
            let rest = p@.subrange(c as int, len as int);
            if len - c <= 31 {
                assert(rest =~= p@.subrange(c as int, end as int));
                assert(p@.subrange(end as int, len as int) =~= Seq::<u8>::empty());
                assert(r@ + pad_spec(p@.subrange(end as int, len as int)) =~= before + pad_spec(rest));
            } else {
                assert(rest.subrange(0, 31) =~= p@.subrange(c as int, end as int));
                assert(rest.subrange(31, rest.len() as int) =~= p@.subrange(end as int, len as int));
                assert(before + pad_spec(rest) =~= r@ + pad_spec(p@.subrange(end as int, len as int)));
            }
        }
        c = end;
    }
    assert(p@.subrange(len as int, len as int) =~= Seq::<u8>::empty());
    assert(r@ + Seq::<u8>::empty() =~= r@);
    r
}

} // verus!

//! Certificates: the part of a commitment after its metadata header.

use crate::rlp::{be_value, first_item, item, items, items_spec, items_view, Item};
use vstd::prelude::*;

verus! {

/// Bytes of metadata (commitment mode, version, commitment type) in front of
/// the certificate in a commitment.
pub const COMMITMENT_HEADER_LEN: usize = 3;

/// A decoded certificate: the commitment point of a blob and the blob's
/// length in field elements.
pub struct Certificate {
    pub x: Vec<u8>,
    pub y: Vec<u8>,
    pub data_length: u32,
}

impl View for Certificate {
    type V = (Seq<u8>, Seq<u8>, u32);

    open spec fn view(&self) -> (Seq<u8>, Seq<u8>, u32) {
        (self.x@, self.y@, self.data_length)
    }
}

/// The commitment point `(x, y)` held by the RLP list `point`: its first two
/// items, byte strings of 32 bytes each.
pub open spec fn point_spec(point: Seq<u8>) -> Option<(Seq<u8>, Seq<u8>)> {
    match items_spec(point) {
        Some(p) => if p.len() >= 2 && !p[0].0 && !p[1].0 && p[0].1.len() == 32 && p[1].1.len()
            == 32 {
            Some((p[0].1, p[1].1))
        } else {
            None
        },
        None => None,
    }
}

/// The certificate that `c` starts with. It is an RLP list whose first item
/// is the blob header; the blob header is a list whose first item is the
/// commitment point (a list of x and y) and whose second is the data length,
/// a big-endian integer of at most four bytes. Further items are not read.
pub open spec fn certificate_spec(c: Seq<u8>) -> Option<(Seq<u8>, Seq<u8>, u32)> {
    match first_item(c) {
        Some((true, outer)) => match first_item(outer) {
            Some((true, blob_header)) => match items_spec(blob_header) {
                Some(f) => if f.len() >= 2 && f[0].0 && !f[1].0 && f[1].1.len() <= 4 {
                    match point_spec(f[0].1) {
                        Some((x, y)) => Some((x, y, be_value(f[1].1) as u32)),
                        None => None,
                    }
                } else {
                    None
                },
                None => None,
            },
            _ => None,
        },
        _ => None,
    }
}

/// The certificate that a commitment holds after its metadata header.
pub open spec fn commitment_certificate(commitment: Seq<u8>) -> Option<(Seq<u8>, Seq<u8>, u32)> {
    if commitment.len() < COMMITMENT_HEADER_LEN {
        None
    } else {
        certificate_spec(commitment.subrange(COMMITMENT_HEADER_LEN as int, commitment.len() as int))
    }
}

/// The certificate could not be decoded.
#[derive(Clone, Copy, Debug, PartialEq, Eq, Structural)]
pub struct CertDecodeError;

proof fn lemma_be_value_bound(s: Seq<u8>)
    ensures
        be_value(s) < crate::rlp::pow256(s.len()),
    decreases s.len(),
{
    if s.len() > 0 {
        lemma_be_value_bound(s.drop_last());
        let a = be_value(s.drop_last());
        let p = crate::rlp::pow256(s.drop_last().len());
        assert(a * 256 + s.last() < 256 * p) by (nonlinear_arith)
            requires
                a < p,
                s.last() < 256,
        ;
    }
}

fn small_value(s: &Vec<u8>) -> (r: u32)
    requires
        s@.len() <= 4,
    ensures
        r == be_value(s@),
        r as int == be_value(s@) as u32 as int,
{
    let mut v: u32 = 0;
    let mut k: usize = 0;
    assert(s@.subrange(0, 0) =~= Seq::<u8>::empty());
    while k < s.len()
        invariant
            k <= s@.len() <= 4,
            v == be_value(s@.subrange(0, k as int)),
        decreases s@.len() - k,
    {
        proof {
            let t = s@.subrange(0, k + 1);
            assert(t.drop_last() =~= s@.subrange(0, k as int));
            lemma_be_value_bound(t);
            assert(crate::rlp::pow256(t.len()) <= 0x1_0000_0000) by {
                reveal_with_fuel(crate::rlp::pow256, 5);
            }
        }
        v = v * 256 + s[k] as u32;
        k = k + 1;
    }
    assert(s@.subrange(0, k as int) =~= s@);
    v
}

fn decode_point(point: &Vec<u8>) -> (r: Option<(Vec<u8>, Vec<u8>)>)
    ensures
        r matches Some((x, y)) ==> point_spec(point@) == Some((x@, y@)),
        r is None ==> point_spec(point@) is None,
{
    let p = match items(point.as_slice()) {
        Some(p) => p,
        None => return None,
    };
    proof {
        assert(items_spec(point@) == Some(items_view(p@)));
    }
    if p.len() >= 2 && !p[0].list && !p[1].list && p[0].payload.len() == 32 && p[1].payload.len()
        == 32 {
        Some((p[0].payload.clone(), p[1].payload.clone()))
    } else {
        None
    }
}

/// Decodes the certificate that `c` starts with.
pub fn decode_certificate(c: &[u8]) -> (r: Result<Certificate, CertDecodeError>)
    ensures
        r matches Ok(cert) ==> certificate_spec(c@) == Some(cert@),
        r is Err ==> certificate_spec(c@) is None,
{
    let outer = match item(c) {
        Some(o) => o,
        None => return Err(CertDecodeError),
    };
    if !outer.list {
        return Err(CertDecodeError);
    }
    let header = match item(outer.payload.as_slice()) {
        Some(h) => h,
        None => return Err(CertDecodeError),
    };
    if !header.list {
        return Err(CertDecodeError);
    }
    let f: Vec<Item> = match items(header.payload.as_slice()) {
        Some(f) => f,
        None => return Err(CertDecodeError),
    };
    proof {
        assert(items_spec(header.payload@) == Some(items_view(f@)));
    }
    if !(f.len() >= 2 && f[0].list && !f[1].list && f[1].payload.len() <= 4) {
        return Err(CertDecodeError);
    }
    let data_length = small_value(&f[1].payload);
    match decode_point(&f[0].payload) {
        Some((x, y)) => Ok(Certificate { x, y, data_length }),
        None => Err(CertDecodeError),
    }
}

/// Decodes the certificate held by `commitment` after its metadata header.
pub fn commitment_to_certificate(commitment: &[u8]) -> (r: Result<Certificate, CertDecodeError>)
    ensures
        r matches Ok(cert) ==> commitment_certificate(commitment@) == Some(cert@),
        r is Err ==> commitment_certificate(commitment@) is None,
{
    if commitment.len() < COMMITMENT_HEADER_LEN {
        return Err(CertDecodeError);
    }
    let rest = commitment.split_at(COMMITMENT_HEADER_LEN).1;
    decode_certificate(rest)
}

} // verus!

//! The proxy of the data-availability network: where a blob is asked for,
//! and what an answer means.

use vstd::prelude::*;
use vstd::string::{StringExecFns, StringSliceAdditionalSpecFns};

verus! {

/// Seconds a request to the proxy may take unless configured otherwise.
pub const DEFAULT_RETRIEVE_TIMEOUT_SECS: u64 = 120;

/// HTTP status of a blob in the body.
pub const STATUS_OK: u16 = 200;

/// HTTP status of a blob the proxy does not have.
pub const STATUS_NOT_FOUND: u16 = 404;

/// Settings of the proxy client.
#[derive(Clone, Debug)]
pub struct EigenDACfg {
    /// The address of the proxy service.
    pub proxy_url: Option<String>,
    /// Seconds a request for a blob may take.
    pub retrieve_timeout: u64,
}

impl EigenDACfg {
    /// No proxy address, and the default timeout.
    pub fn new() -> (r: EigenDACfg)
        ensures
            r.proxy_url is None,
            r.retrieve_timeout == DEFAULT_RETRIEVE_TIMEOUT_SECS,
    {
        EigenDACfg { proxy_url: None, retrieve_timeout: DEFAULT_RETRIEVE_TIMEOUT_SECS }
    }
}

/// Why no blob came back from the proxy.
#[derive(Clone, Copy, Debug, PartialEq, Eq, Structural)]
pub enum ProxyError {
    /// The proxy does not have the blob.
    NotFound,
    /// Any other status; the status is kept.
    NetworkError(u16),
}

/// The lower-case hex digit of `n`, below 16.
pub open spec fn hex_digit(n: u8) -> char {
    if n < 10 {
        (48 + n) as char
    } else {
        (87 + n) as char
    }
}

/// `b` in lower-case hex, two digits per byte, high digit first.
pub open spec fn hex_of(b: Seq<u8>) -> Seq<char> {
    Seq::new(
        2 * b.len(),
        |k: int| if k % 2 == 0 {
            hex_digit(b[k / 2] / 16)
        } else {
            hex_digit(b[k / 2] % 16)
        },
    )
}

/// Relies on `alloy_primitives::hex::encode`: two lower-case hex digits per
/// byte, high digit first, with no prefix.
#[verifier::external_body]
fn hex_encode(b: &[u8]) -> (r: String)
    ensures
        r@ == hex_of(b@),
{
    alloy_primitives::hex::encode(b)
}

/// The address of the blob with `commitment` on the proxy at `proxy_url`.
pub fn request_url(proxy_url: &str, commitment: &[u8]) -> (r: String)
    ensures
        r@ == proxy_url@ + "/get/0x"@ + hex_of(commitment@),
{
    let mut url = proxy_url.to_owned();
    url.append("/get/0x");
    let h = hex_encode(commitment);
    url.append(h.as_str());
    url
}

/// What a proxy answer means: the body on 200, `NotFound` on 404, a network
/// error on any other status.
pub fn classify_response(status: u16, body: Vec<u8>) -> (r: Result<Vec<u8>, ProxyError>)
    ensures
        status == STATUS_OK ==> r == Ok::<_, ProxyError>(body),
        status == STATUS_NOT_FOUND ==> r == Err::<Vec<u8>, _>(ProxyError::NotFound),
        status != STATUS_OK && status != STATUS_NOT_FOUND ==> r == Err::<Vec<u8>, _>(
            ProxyError::NetworkError(status),
        ),
{
    if status == STATUS_OK {
        Ok(body)
    } else if status == STATUS_NOT_FOUND {
        Err(ProxyError::NotFound)
    } else {
        Err(ProxyError::NetworkError(status))
    }
}

/// The value of decimal digits.
pub open spec fn digits_value(d: Seq<u8>) -> nat
    decreases d.len(),
{
    if d.len() == 0 {
        0
    } else {
        (10 * digits_value(d.drop_last()) + (d.last() - 48)) as nat
    }
}

/// Whether every byte of `d` is a decimal digit.
pub open spec fn all_digits(d: Seq<u8>) -> bool {
    forall|i: int| 0 <= i < d.len() ==> 48 <= #[trigger] d[i] <= 57
}

/// The number that `b` writes in decimal, with an optional leading `+`;
/// `None` where there is no digit or a byte that is not a digit.
pub open spec fn decimal_spec(b: Seq<u8>) -> Option<nat> {
    let d = if b.len() > 0 && b[0] == 43 {
        b.drop_first()
    } else {
        b
    };
    if d.len() > 0 && all_digits(d) {
        Some(digits_value(d))
    } else {
        None
    }
}

proof fn lemma_digits_value_grows(d: Seq<u8>, k: int)
    requires
        0 <= k <= d.len(),
        all_digits(d),
    ensures
        digits_value(d.subrange(0, k)) <= digits_value(d),
    decreases d.len() - k,
{
    if k < d.len() {
        lemma_digits_value_grows(d, k + 1);
        assert(d.subrange(0, k + 1).drop_last() =~= d.subrange(0, k));
        assert(d.subrange(0, k + 1).last() == d[k]);
    } else {
        assert(d.subrange(0, k) =~= d);
    }
}

/// A retrieve timeout in seconds, written in decimal: the number, or `None`
/// where the text is not a decimal number or does not fit in 64 bits.
pub fn parse_duration(input: &str) -> (r: Option<u64>)
    ensures
        r matches Some(v) ==> decimal_spec(input.spec_bytes()) == Some(v as nat),
        r is None ==> match decimal_spec(input.spec_bytes()) {
            Some(v) => v >= 0x1_0000_0000_0000_0000,
            None => true,
        },
{
    let b = input.as_bytes();
    let start: usize = if b.len() > 0 && b[0] == 43 { 1 } else { 0 };
    let ghost d = if b@.len() > 0 && b@[0] == 43 { b@.drop_first() } else { b@ };
    assert(d =~= b@.subrange(start as int, b@.len() as int));
    if start >= b.len() {
        return None;
    }
    let mut v: u64 = 0;
    let mut i: usize = start;
    assert(d.subrange(0, 0) =~= Seq::<u8>::empty());
    while i < b.len()
        invariant
            start <= i <= b@.len(),
            b@ == input.spec_bytes(),
            d == (if b@.len() > 0 && b@[0] == 43 { b@.drop_first() } else { b@ }),
            d == b@.subrange(start as int, b@.len() as int),
            all_digits(d.subrange(0, i - start)),
            v == digits_value(d.subrange(0, i - start)),
        decreases b@.len() - i,
    {
        let c = b[i];
        let ghost k = i - start;
        proof {
            assert(d.subrange(0, k + 1).drop_last() =~= d.subrange(0, k));
            assert(d.subrange(0, k + 1).last() == c);
        }
        if c < 48 || c > 57 {
            assert(d[k] == c);
            assert(!all_digits(d));
            return None;
        }
        let digit = (c - 48) as u64;
        if v > (0xffff_ffff_ffff_ffff - digit) / 10 {
            proof {
                assert(all_digits(d.subrange(0, k + 1)));
                assert(digits_value(d.subrange(0, k + 1)) >= 0x1_0000_0000_0000_0000) by (nonlinear_arith)
                    requires
                        digits_value(d.subrange(0, k + 1)) == 10 * v + digit,
                        v > (0xffff_ffff_ffff_ffff - digit) / 10,
                        digit <= 9,
                ;
                if all_digits(d) {
                    lemma_digits_value_grows(d, k + 1);
                }
            }
            return None;
        }
        v = v * 10 + digit;
        i = i + 1;
        assert(all_digits(d.subrange(0, i - start)));
    }
    assert(d.subrange(0, i - start) =~= d);
    Some(v)
}

} // verus!

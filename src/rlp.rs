//! The subset of RLP that certificates and frame lists are written in: item
//! headers with lengths of up to four bytes, lists of items, and byte strings.

use vstd::prelude::*;

verus! {

/// The value of big-endian bytes.
pub open spec fn be_value(s: Seq<u8>) -> nat
    decreases s.len(),
{
    if s.len() == 0 {
        0
    } else {
        (be_value(s.drop_last()) * 256 + s.last()) as nat
    }
}

/// `256` to the power `k`.
pub open spec fn pow256(k: nat) -> nat
    decreases k,
{
    if k == 0 {
        1
    } else {
        256 * pow256((k - 1) as nat)
    }
}

/// The header of the item at the start of `s`: whether it is a list, the
/// offset of its payload and the payload's length. `None` where the header is
/// cut short, its length takes more than four bytes, or the payload runs past
/// the end of `s`; also where the encoding is not the canonical one: a
/// single byte below `0x80` wrapped as a one-byte string, or a long-form
/// length with a leading zero byte or of at most 55.
pub open spec fn header_spec(s: Seq<u8>) -> Option<(bool, int, int)> {
    if s.len() == 0 {
        None
    } else {
        let b = s[0];
        let h: Option<(bool, int, int)> = if b < 0x80 {
            Some((false, 0, 1))
        } else if b <= 0xb7 {
            if b == 0x81 && s.len() >= 2 && s[1] < 0x80 {
                None
            } else {
                Some((false, 1, b - 0x80))
            }
        } else if b <= 0xbf {
            let ll = b - 0xb7;
            if ll > 4 || s.len() < 1 + ll || s[1] == 0 || be_value(s.subrange(1, 1 + ll)) <= 55 {
                None
            } else {
                Some((false, 1 + ll, be_value(s.subrange(1, 1 + ll)) as int))
            }
        } else if b <= 0xf7 {
            Some((true, 1, b - 0xc0))
        } else {
            let ll = b - 0xf7;
            if ll > 4 || s.len() < 1 + ll || s[1] == 0 || be_value(s.subrange(1, 1 + ll)) <= 55 {
                None
            } else {
                Some((true, 1 + ll, be_value(s.subrange(1, 1 + ll)) as int))
            }
        };
        match h {
            Some((l, start, len)) => if start + len <= s.len() {
                h
            } else {
                None
            },
            None => None,
        }
    }
}

/// The item at the start of `s`: whether it is a list, and its payload.
pub open spec fn first_item(s: Seq<u8>) -> Option<(bool, Seq<u8>)> {
    match header_spec(s) {
        Some((l, start, len)) => Some((l, s.subrange(start, start + len))),
        None => None,
    }
}

/// The items that `s` holds one after another, each a list flag and a payload.
pub open spec fn items_spec(s: Seq<u8>) -> Option<Seq<(bool, Seq<u8>)>>
    decreases s.len(),
{
    if s.len() == 0 {
        Some(Seq::empty())
    } else {
        match header_spec(s) {
            Some((l, start, len)) => if start + len > 0 {
                match items_spec(s.subrange(start + len, s.len() as int)) {
                    Some(rest) => Some(seq![(l, s.subrange(start, start + len))] + rest),
                    None => None,
                }
            } else {
                None
            },
            None => None,
        }
    }
}

/// The byte strings of an RLP list of byte strings that starts `s`; `None`
/// where `s` does not start with a list, or an item of it is a list.
pub open spec fn byte_list_spec(s: Seq<u8>) -> Option<Seq<Seq<u8>>> {
    match first_item(s) {
        Some((true, payload)) => match items_spec(payload) {
            Some(items) => if forall|i: int| 0 <= i < items.len() ==> !items[i].0 {
                Some(items.map_values(|it: (bool, Seq<u8>)| it.1))
            } else {
                None
            },
            None => None,
        },
        _ => None,
    }
}

/// A decoded item header.
pub struct Header {
    pub list: bool,
    pub start: usize,
    pub len: usize,
}

proof fn lemma_pow256_step(k: nat)
    ensures
        pow256(k + 1) == 256 * pow256(k),
{
}

/// The value of `s[from..from + n]`, `n` at most four.
fn read_be(s: &[u8], from: usize, n: usize) -> (r: u64)
    requires
        n <= 4,
        from + n <= s@.len(),
    ensures
        r == be_value(s@.subrange(from as int, from + n)),
        r < pow256(n as nat),
{
    assert(s@.len() == s.len());
    let mut v: u64 = 0;
    let mut k: usize = 0;
    assert(s@.subrange(from as int, from as int) =~= Seq::<u8>::empty());
    while k < n
        invariant
            k <= n <= 4,
            from + n <= s@.len() == s.len(),
            v == be_value(s@.subrange(from as int, from + k)),
            v < pow256(k as nat),
        decreases n - k,
    {
        assert(from + k < s@.len());
        let b = s[from + k];
        proof {
            lemma_pow256_step(k as nat);
            assert(pow256(k as nat) <= 0x100_0000) by {
                reveal_with_fuel(pow256, 4);
            }
            assert(v * 256 + b < 256 * pow256(k as nat)) by (nonlinear_arith)
                requires
                    v < pow256(k as nat),
                    b < 256,
            ;
            let t = s@.subrange(from as int, from + k + 1);
            assert(t.drop_last() =~= s@.subrange(from as int, from + k));
        }
        v = v * 256 + b as u64;
        k = k + 1;
    }
    v
}

/// Decodes the header of the item at the start of `s`.
pub fn header(s: &[u8]) -> (r: Option<Header>)
    ensures
        r matches Some(h) ==> header_spec(s@) == Some((h.list, h.start as int, h.len as int)),
        r matches Some(h) ==> h.start + h.len <= s@.len(),
        r is None ==> header_spec(s@) is None,
{
    if s.len() == 0 {
        return None;
    }
    let b = s[0];
    let list: bool;
    let start: usize;
    let len: u64;
    if b < 0x80 {
        list = false;
        start = 0;
        len = 1;
    } else if b <= 0xb7 {
        if b == 0x81 && s.len() >= 2 && s[1] < 0x80 {
            return None;
        }
        list = false;
        start = 1;
        len = (b - 0x80) as u64;
    } else if b <= 0xbf {
        let ll = (b - 0xb7) as usize;
        if ll > 4 || s.len() < 1 + ll || s[1] == 0 {
            return None;
        }
        list = false;
        start = 1 + ll;
        len = read_be(s, 1, ll);
        if len <= 55 {
            return None;
        }
    } else if b <= 0xf7 {
        list = true;
        start = 1;
        len = (b - 0xc0) as u64;
    } else {
        let ll = (b - 0xf7) as usize;
        if ll > 4 || s.len() < 1 + ll || s[1] == 0 {
            return None;
        }
        list = true;
        start = 1 + ll;
        len = read_be(s, 1, ll);
        if len <= 55 {
            return None;
        }
    }
    if len > (s.len() - start) as u64 {
        return None;
    }
    Some(Header { list, start, len: len as usize })
}

/// An item of a list: whether it is itself a list, and its payload.
pub struct Item {
    pub list: bool,
    pub payload: Vec<u8>,
}

/// The views of a sequence of items.
pub open spec fn items_view(s: Seq<Item>) -> Seq<(bool, Seq<u8>)> {
    s.map_values(|it: Item| (it.list, it.payload@))
}

fn copy_range(s: &[u8], from: usize, to: usize) -> (r: Vec<u8>)
    requires
        from <= to <= s@.len(),
    ensures
        r@ == s@.subrange(from as int, to as int),
{
    let mut r: Vec<u8> = Vec::new();
    let mut i: usize = from;
    while i < to
        invariant
            from <= i <= to <= s@.len(),
            r@ == s@.subrange(from as int, i as int),
        decreases to - i,
    {
        r.push(s[i]);
        i = i + 1;
        assert(r@ =~= s@.subrange(from as int, i as int));
    }
    r
}

/// The item at the start of `s`.
pub fn item(s: &[u8]) -> (r: Option<Item>)
    ensures
        r matches Some(it) ==> first_item(s@) == Some((it.list, it.payload@)),
        r is None ==> first_item(s@) is None,
{
    assert(s@.len() == s.len());
    match header(s) {
        Some(h) => Some(Item { list: h.list, payload: copy_range(s, h.start, h.start + h.len) }),
        None => None,
    }
}

/// The items that `s` holds one after another.
pub fn items(s: &[u8]) -> (r: Option<Vec<Item>>)
    ensures
        r matches Some(v) ==> items_spec(s@) == Some(items_view(v@)),
        r is None ==> items_spec(s@) is None,
{
    let mut out: Vec<Item> = Vec::new();
    let mut off: usize = 0;
    assert(s@.subrange(0, s@.len() as int) =~= s@);
    while off < s.len()
        invariant
            off <= s@.len(),
            items_spec(s@) == match items_spec(s@.subrange(off as int, s@.len() as int)) {
                Some(rest) => Some(items_view(out@) + rest),
                None => None::<Seq<(bool, Seq<u8>)>>,
            },
        decreases s@.len() - off,
    {
        let rest = s.split_at(off).1;
        proof {
            assert(rest@ == s@.subrange(off as int, s@.len() as int));
        }
        match header(rest) {
            Some(h) => {
                if h.start + h.len == 0 {
                    return None;
                }
                let payload = copy_range(rest, h.start, h.start + h.len);
                let ghost old_out = out@;
                let it = Item { list: h.list, payload };
                out.push(it);
                proof {
                    let r = rest@;
                    let e = h.start + h.len;
                    assert(r.subrange(e as int, r.len() as int) =~= s@.subrange(off + e, s@.len() as int));
                    assert(items_view(out@) =~= items_view(old_out).push((h.list, payload@)));
                    match items_spec(r.subrange(e as int, r.len() as int)) {
                        Some(t) => {
                            assert(items_view(old_out) + (seq![(h.list, payload@)] + t) =~= items_view(out@) + t);
                        },
                        None => {},
                    }
                }
                off = off + h.start + h.len;
            },
            None => {
                return None;
            },
        }
    }
    proof {
        assert(s@.subrange(off as int, s@.len() as int) =~= Seq::<u8>::empty());
        assert(items_view(out@) + Seq::<(bool, Seq<u8>)>::empty() =~= items_view(out@));
    }
    Some(out)
}

/// The byte strings of the RLP list of byte strings that starts `s`.
pub fn byte_list(s: &[u8]) -> (r: Option<Vec<Vec<u8>>>)
    ensures
        r matches Some(v) ==> byte_list_spec(s@) == Some(v@.map_values(|b: Vec<u8>| b@)),
        r is None ==> byte_list_spec(s@) is None,
{
    let top = match item(s) {
        Some(t) => t,
        None => return None,
    };
    if !top.list {
        return None;
    }
    let its = match items(top.payload.as_slice()) {
        Some(v) => v,
        None => return None,
    };
    let mut out: Vec<Vec<u8>> = Vec::new();
    let mut i: usize = 0;
    while i < its.len()
        invariant
            i <= its@.len(),
            first_item(s@) == Some((true, top.payload@)),
            items_spec(top.payload@) == Some(items_view(its@)),
            out@.len() == i,
            forall|j: int| 0 <= j < i ==> !its@[j].list && out@[j]@ == its@[j].payload@,
        decreases its@.len() - i,
    {
        if its[i].list {
            proof {
                let iv = items_view(its@);
                assert(iv[i as int].0);
                assert(!(forall|j: int| 0 <= j < iv.len() ==> !iv[j].0));
            }
            return None;
        }
        out.push(its[i].payload.clone());
        i = i + 1;
    }
    proof {
        let iv = items_view(its@);
        assert(forall|j: int| 0 <= j < iv.len() ==> !iv[j].0);
        assert(iv.map_values(|it: (bool, Seq<u8>)| it.1) =~= out@.map_values(|b: Vec<u8>| b@));
    }
    Some(out)
}

} // verus!

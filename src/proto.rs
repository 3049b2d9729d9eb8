//! The calldata frame: a protobuf message that holds either a frame inline or
//! a reference to a blob in the data-availability network.
//!
//! ```text
//! message CalldataFrame { oneof value { bytes frame = 1; FrameRef frame_ref = 2; } }
//! message FrameRef { bytes commitment = 1; uint32 blob_length = 2; repeated uint32 quorum_ids = 3; }
//! ```

use vstd::prelude::*;

verus! {

/// Varints longer than this are refused: every number of these messages
/// (field keys, lengths, 32-bit integers) fits in five bytes.
pub const MAX_VARINT_LEN: usize = 5;

/// The varint at the start of `s`, read with at most `n` bytes: its value and
/// the number of bytes it takes.
pub open spec fn varint_spec(s: Seq<u8>, n: nat) -> Option<(nat, nat)>
    decreases n,
{
    if n == 0 || s.len() == 0 {
        None
    } else if s[0] < 0x80 {
        Some((s[0] as nat, 1))
    } else {
        match varint_spec(s.drop_first(), (n - 1) as nat) {
            Some((v, l)) => Some((((s[0] - 0x80) + 128 * v) as nat, l + 1)),
            None => None,
        }
    }
}

/// `128` to the power `k`.
pub open spec fn pow128(k: nat) -> nat
    decreases k,
{
    if k == 0 {
        1
    } else {
        128 * pow128((k - 1) as nat)
    }
}

proof fn lemma_varint_bound(s: Seq<u8>, n: nat)
    ensures
        varint_spec(s, n) matches Some((v, l)) ==> v < pow128(n) && 1 <= l <= n && l <= s.len(),
    decreases n,
{
    if n > 0 && s.len() > 0 && s[0] >= 0x80 {
        lemma_varint_bound(s.drop_first(), (n - 1) as nat);
        if let Some((v, l)) = varint_spec(s.drop_first(), (n - 1) as nat) {
            let p = pow128((n - 1) as nat);
            let b = s[0] - 0x80;
            assert(b + 128 * v < 128 * p) by (nonlinear_arith)
                requires
                    v < p,
                    0 <= b < 128,
            ;
        }
    }
    if n > 0 && s.len() > 0 && s[0] < 0x80 {
        assert(pow128(n) >= 128) by {
            lemma_pow128_pos((n - 1) as nat);
        }
    }
}

proof fn lemma_pow128_pos(k: nat)
    ensures
        pow128(k) >= 1,
    decreases k,
{
    if k > 0 {
        lemma_pow128_pos((k - 1) as nat);
    }
}

/// Reads the varint that starts at `s[from..]`, with at most `n` bytes.
fn read_varint(s: &[u8], from: usize, n: usize) -> (r: Option<(u64, usize)>)
    requires
        from <= s@.len(),
        n <= MAX_VARINT_LEN,
    ensures
        r matches Some((v, l)) ==> varint_spec(s@.subrange(from as int, s@.len() as int), n as nat)
            == Some((v as nat, l as nat)),
        r is None ==> varint_spec(s@.subrange(from as int, s@.len() as int), n as nat) is None,
    decreases n,
{
    let ghost t = s@.subrange(from as int, s@.len() as int);
    if n == 0 || from >= s.len() {
        return None;
    }
    let b = s[from];
    if b < 0x80 {
        return Some((b as u64, 1));
    }
    proof {
        assert(t.drop_first() =~= s@.subrange(from + 1, s@.len() as int));
    }
    match read_varint(s, from + 1, n - 1) {
        Some((v, l)) => {
            proof {
                lemma_varint_bound(t.drop_first(), (n - 1) as nat);
                assert(pow128(4) == 0x1000_0000) by {
                    reveal_with_fuel(pow128, 5);
                }
                assert(pow128((n - 1) as nat) <= pow128(4)) by {
                    reveal_with_fuel(pow128, 5);
                }
            }
            Some(((b - 0x80) as u64 + 128 * v, l + 1))
        },
        None => None,
    }
}

/// One field of a message: its number, its wire type, and its value (a
/// number for wire type 0, bytes for wire type 2).
pub struct Field {
    pub number: u64,
    pub wire_type: u8,
    pub value: u64,
    pub bytes: Vec<u8>,
}

/// The view of a field.
pub open spec fn field_view(f: Field) -> (nat, u8, nat, Seq<u8>) {
    (f.number as nat, f.wire_type, f.value as nat, f.bytes@)
}

/// The field at the start of `s` and the number of bytes it takes. Wire type
/// 0 holds a varint, wire type 2 a varint length and that many bytes; wire
/// types 1 and 5 (eight and four bytes) are skipped over with no value kept;
/// other wire types and field number 0 are refused.
pub open spec fn field_spec(s: Seq<u8>) -> Option<((nat, u8, nat, Seq<u8>), nat)> {
    match varint_spec(s, MAX_VARINT_LEN as nat) {
        Some((key, kl)) => {
            let number = key / 8;
            let wt = (key % 8) as u8;
            let rest = s.subrange(kl as int, s.len() as int);
            if number == 0 {
                None
            } else if wt == 0 {
                match varint_spec(rest, MAX_VARINT_LEN as nat) {
                    Some((v, vl)) => Some(((number, wt, v, Seq::empty()), kl + vl)),
                    None => None,
                }
            } else if wt == 2 {
                match varint_spec(rest, MAX_VARINT_LEN as nat) {
                    Some((len, ll)) => if ll + len <= rest.len() {
                        Some(
                            (
                                (number, wt, 0, rest.subrange(ll as int, (ll + len) as int)),
                                (kl + ll + len) as nat,
                            ),
                        )
                    } else {
                        None
                    },
                    None => None,
                }
            } else if wt == 1 && 8 <= rest.len() {
                Some(((number, wt, 0, Seq::empty()), kl + 8))
            } else if wt == 5 && 4 <= rest.len() {
                Some(((number, wt, 0, Seq::empty()), kl + 4))
            } else {
                None
            }
        },
        None => None,
    }
}

/// The fields that `s` holds one after another.
pub open spec fn fields_spec(s: Seq<u8>) -> Option<Seq<(nat, u8, nat, Seq<u8>)>>
    decreases s.len(),
{
    if s.len() == 0 {
        Some(Seq::empty())
    } else {
        match field_spec(s) {
            Some((f, l)) => if 0 < l <= s.len() {
                match fields_spec(s.subrange(l as int, s.len() as int)) {
                    Some(rest) => Some(seq![f] + rest),
                    None => None,
                }
            } else {
                None
            },
            None => None,
        }
    }
}

proof fn lemma_field_len(s: Seq<u8>)
    ensures
        field_spec(s) matches Some((f, l)) ==> 0 < l <= s.len(),
{
    lemma_varint_bound(s, MAX_VARINT_LEN as nat);
    if let Some((key, kl)) = varint_spec(s, MAX_VARINT_LEN as nat) {
        lemma_varint_bound(s.subrange(kl as int, s.len() as int), MAX_VARINT_LEN as nat);
    }
}

/// Reads the field at `s[from..]`.
fn read_field(s: &[u8], from: usize) -> (r: Option<(Field, usize)>)
    requires
        from <= s@.len(),
    ensures
        r matches Some((f, l)) ==> field_spec(s@.subrange(from as int, s@.len() as int)) == Some(
            (field_view(f), l as nat),
        ),
        r is None ==> field_spec(s@.subrange(from as int, s@.len() as int)) is None,
{
    let ghost t = s@.subrange(from as int, s@.len() as int);
    assert(s@.len() == s.len());
    proof {
        lemma_varint_bound(t, MAX_VARINT_LEN as nat);
        assert(pow128(5) == 0x8_0000_0000) by {
            reveal_with_fuel(pow128, 6);
        }
    }
    let (key, kl) = match read_varint(s, from, MAX_VARINT_LEN) {
        Some(p) => p,
        None => return None,
    };
    let number = key / 8;
    let wt = (key % 8) as u8;
    let at = from + kl;
    proof {
        assert(s@.subrange(at as int, s@.len() as int) =~= t.subrange(kl as int, t.len() as int));
        lemma_varint_bound(t.subrange(kl as int, t.len() as int), MAX_VARINT_LEN as nat);
    }
    if number == 0 {
        return None;
    }
    if wt == 0 {
        match read_varint(s, at, MAX_VARINT_LEN) {
            Some((v, vl)) => Some((Field { number, wire_type: wt, value: v, bytes: Vec::new() }, kl + vl)),
            None => None,
        }
    } else if wt == 2 {
        match read_varint(s, at, MAX_VARINT_LEN) {
            Some((len, ll)) => {
                if len > (s.len() - at - ll) as u64 {
                    return None;
                }
                let start = at + ll;
                let end = start + len as usize;
                let mut bytes: Vec<u8> = Vec::new();
                let mut k: usize = start;
                while k < end
                    invariant
                        start <= k <= end <= s@.len(),
                        bytes@ == s@.subrange(start as int, k as int),
                    decreases end - k,
                {
                    bytes.push(s[k]);
                    k = k + 1;
                    assert(bytes@ =~= s@.subrange(start as int, k as int));
                }
                proof {
                    let rest = t.subrange(kl as int, t.len() as int);
                    assert(rest.subrange(ll as int, (ll + len) as int) =~= bytes@);
                }
                Some((Field { number, wire_type: wt, value: 0, bytes }, kl + ll + len as usize))
            },
            None => None,
        }
    } else if wt == 1 && 8 <= s.len() - at {
        Some((Field { number, wire_type: wt, value: 0, bytes: Vec::new() }, kl + 8))
    } else if wt == 5 && 4 <= s.len() - at {
        Some((Field { number, wire_type: wt, value: 0, bytes: Vec::new() }, kl + 4))
    } else {
        None
    }
}

/// Reads every field of `s`.
pub fn read_fields(s: &[u8]) -> (r: Option<Vec<Field>>)
    ensures
        r matches Some(v) ==> fields_spec(s@) == Some(v@.map_values(|f: Field| field_view(f))),
        r is None ==> fields_spec(s@) is None,
{
    let mut out: Vec<Field> = Vec::new();
    let mut off: usize = 0;
    assert(s@.subrange(0, s@.len() as int) =~= s@);
    while off < s.len()
        invariant
            off <= s@.len(),
            fields_spec(s@) == match fields_spec(s@.subrange(off as int, s@.len() as int)) {
                Some(rest) => Some(out@.map_values(|f: Field| field_view(f)) + rest),
                None => None::<Seq<(nat, u8, nat, Seq<u8>)>>,
            },
        decreases s@.len() - off,
    {
        let ghost t = s@.subrange(off as int, s@.len() as int);
        proof {
            lemma_field_len(t);
        }
        match read_field(s, off) {
            Some((f, l)) => {
                let ghost old_out = out@;
                let ghost fv = field_view(f);
                out.push(f);
                proof {
                    assert(t.subrange(l as int, t.len() as int) =~= s@.subrange(off + l, s@.len() as int));
                    assert(out@.map_values(|f: Field| field_view(f)) =~= old_out.map_values(|f: Field| field_view(f)).push(fv));
                    match fields_spec(t.subrange(l as int, t.len() as int)) {
                        Some(rest) => {
                            assert(old_out.map_values(|f: Field| field_view(f)) + (seq![fv] + rest) =~= out@.map_values(|f: Field| field_view(f)) + rest);
                        },
                        None => {},
                    }
                }
                off = off + l;
            },
            None => return None,
        }
    }
    proof {
        assert(s@.subrange(off as int, s@.len() as int) =~= Seq::<u8>::empty());
        assert(out@.map_values(|f: Field| field_view(f)) + Seq::<(nat, u8, nat, Seq<u8>)>::empty() =~= out@.map_values(|f: Field| field_view(f)));
    }
    Some(out)
}

/// The 32-bit numbers of a packed repeated field.
pub open spec fn packed_spec(s: Seq<u8>) -> Option<Seq<u32>>
    decreases s.len(),
{
    if s.len() == 0 {
        Some(Seq::empty())
    } else {
        match varint_spec(s, MAX_VARINT_LEN as nat) {
            Some((v, l)) => if 0 < l <= s.len() {
                match packed_spec(s.subrange(l as int, s.len() as int)) {
                    Some(rest) => Some(seq![(v % 0x1_0000_0000) as u32] + rest),
                    None => None,
                }
            } else {
                None
            },
            None => None,
        }
    }
}

/// A reference to a blob: its commitment, the number of its bytes that hold
/// frames, and the quorums that hold it.
#[derive(Clone, Debug)]
pub struct FrameRef {
    pub commitment: Vec<u8>,
    pub blob_length: u32,
    pub quorum_ids: Vec<u32>,
}

impl View for FrameRef {
    type V = (Seq<u8>, u32, Seq<u32>);

    open spec fn view(&self) -> (Seq<u8>, u32, Seq<u32>) {
        (self.commitment@, self.blob_length, self.quorum_ids@)
    }
}

/// The reference built from the first `n` fields: the last commitment and
/// blob length win, quorum ids accumulate (one per varint field, or packed);
/// other field numbers are skipped; a known field with the wrong wire type is
/// refused.
pub open spec fn frame_ref_fold(fields: Seq<(nat, u8, nat, Seq<u8>)>, n: nat) -> Option<
    (Seq<u8>, u32, Seq<u32>),
>
    decreases n,
{
    if n == 0 {
        Some((Seq::empty(), 0, Seq::empty()))
    } else {
        match frame_ref_fold(fields, (n - 1) as nat) {
            Some((c, len, ids)) => {
                let f = fields[n - 1];
                if f.0 == 1 {
                    if f.1 == 2 {
                        Some((f.3, len, ids))
                    } else {
                        None
                    }
                } else if f.0 == 2 {
                    if f.1 == 0 {
                        Some((c, (f.2 % 0x1_0000_0000) as u32, ids))
                    } else {
                        None
                    }
                } else if f.0 == 3 {
                    if f.1 == 0 {
                        Some((c, len, ids.push((f.2 % 0x1_0000_0000) as u32)))
                    } else if f.1 == 2 {
                        match packed_spec(f.3) {
                            Some(more) => Some((c, len, ids + more)),
                            None => None,
                        }
                    } else {
                        None
                    }
                } else {
                    Some((c, len, ids))
                }
            },
            None => None,
        }
    }
}

/// The reference that the message `s` encodes.
pub open spec fn frame_ref_spec(s: Seq<u8>) -> Option<(Seq<u8>, u32, Seq<u32>)> {
    match fields_spec(s) {
        Some(f) => frame_ref_fold(f, f.len()),
        None => None,
    }
}

/// The last field of the oneof among the first `n`: whether it is a
/// reference, and its bytes; a oneof field with a wire type other than 2 is
/// refused.
pub open spec fn oneof_fold(fields: Seq<(nat, u8, nat, Seq<u8>)>, n: nat) -> Option<
    Option<(bool, Seq<u8>)>,
>
    decreases n,
{
    if n == 0 {
        Some(None)
    } else {
        match oneof_fold(fields, (n - 1) as nat) {
            Some(prev) => {
                let f = fields[n - 1];
                if f.0 == 1 || f.0 == 2 {
                    if f.1 == 2 {
                        Some(Some((f.0 == 2, f.3)))
                    } else {
                        None
                    }
                } else {
                    Some(prev)
                }
            },
            None => None,
        }
    }
}

/// What a calldata frame holds.
pub enum CalldataValue {
    /// A frame, inline.
    Frame(Vec<u8>),
    /// A reference to a blob that holds frames.
    FrameRef(FrameRef),
}

/// The view of a calldata value: whether it is a reference, the inline
/// frame (empty for a reference), and the reference (empty for a frame).
pub open spec fn calldata_view(v: CalldataValue) -> (bool, Seq<u8>, (Seq<u8>, u32, Seq<u32>)) {
    match v {
        CalldataValue::Frame(f) => (false, f@, (Seq::empty(), 0, Seq::empty())),
        CalldataValue::FrameRef(r) => (true, Seq::empty(), r@),
    }
}

/// What the calldata frame `s` decodes to: `Some(None)` where it sets no
/// value, `None` where it does not decode.
pub open spec fn calldata_spec(s: Seq<u8>) -> Option<
    Option<(bool, Seq<u8>, (Seq<u8>, u32, Seq<u32>))>,
> {
    match fields_spec(s) {
        Some(f) => match oneof_fold(f, f.len()) {
            Some(None) => Some(None),
            Some(Some((false, b))) => Some(Some((false, b, (Seq::empty(), 0, Seq::empty())))),
            Some(Some((true, b))) => match frame_ref_spec(b) {
                Some(r) => Some(Some((true, Seq::empty(), r))),
                None => None,
            },
            None => None,
        },
        None => None,
    }
}

fn read_packed(s: &[u8]) -> (r: Option<Vec<u32>>)
    ensures
        r matches Some(v) ==> packed_spec(s@) == Some(v@),
        r is None ==> packed_spec(s@) is None,
{
    let mut out: Vec<u32> = Vec::new();
    let mut off: usize = 0;
    assert(s@.subrange(0, s@.len() as int) =~= s@);
    while off < s.len()
        invariant
            off <= s@.len(),
            packed_spec(s@) == match packed_spec(s@.subrange(off as int, s@.len() as int)) {
                Some(rest) => Some(out@ + rest),
                None => None::<Seq<u32>>,
            },
        decreases s@.len() - off,
    {
        let ghost t = s@.subrange(off as int, s@.len() as int);
        proof {
            lemma_varint_bound(t, MAX_VARINT_LEN as nat);
        }
        match read_varint(s, off, MAX_VARINT_LEN) {
            Some((v, l)) => {
                let ghost old_out = out@;
                out.push((v % 0x1_0000_0000) as u32);
                proof {
                    assert(t.subrange(l as int, t.len() as int) =~= s@.subrange(off + l, s@.len() as int));
                    match packed_spec(t.subrange(l as int, t.len() as int)) {
                        Some(rest) => {
                            assert(old_out + (seq![(v % 0x1_0000_0000) as u32] + rest) =~= out@ + rest);
                        },
                        None => {},
                    }
                }
                off = off + l;
            },
            None => return None,
        }
    }
    proof {
        assert(s@.subrange(off as int, s@.len() as int) =~= Seq::<u8>::empty());
        assert(out@ + Seq::<u32>::empty() =~= out@);
    }
    Some(out)
}

/// Decodes a frame reference message.
pub fn decode_frame_ref(s: &[u8]) -> (r: Option<FrameRef>)
    ensures
        r matches Some(f) ==> frame_ref_spec(s@) == Some(f@),
        r is None ==> frame_ref_spec(s@) is None,
{
    let fields = match read_fields(s) {
        Some(f) => f,
        None => return None,
    };
    let ghost fv = fields@.map_values(|f: Field| field_view(f));
    let mut commitment: Vec<u8> = Vec::new();
    let mut blob_length: u32 = 0;
    let mut quorum_ids: Vec<u32> = Vec::new();
    let mut i: usize = 0;
    while i < fields.len()
        invariant
            i <= fields@.len(),
            fv == fields@.map_values(|f: Field| field_view(f)),
            frame_ref_spec(s@) == frame_ref_fold(fv, fv.len()),
            fv.len() == fields@.len(),
            frame_ref_fold(fv, i as nat) == Some((commitment@, blob_length, quorum_ids@)),
        decreases fields@.len() - i,
    {
        let f = &fields[i];
        assert(fv[i as int] == field_view(*f));
        if f.number == 1 {
            if f.wire_type != 2 {
                proof { lemma_fold_stays_none(fv, (i + 1) as nat, fv.len()); }
                return None;
            }
            commitment = f.bytes.clone();
        } else if f.number == 2 {
            if f.wire_type != 0 {
                proof { lemma_fold_stays_none(fv, (i + 1) as nat, fv.len()); }
                return None;
            }
            blob_length = (f.value % 0x1_0000_0000) as u32;
        } else if f.number == 3 {
            if f.wire_type == 0 {
                quorum_ids.push((f.value % 0x1_0000_0000) as u32);
            } else if f.wire_type == 2 {
                match read_packed(f.bytes.as_slice()) {
                    Some(more) => {
                        let mut k: usize = 0;
                        let ghost base = quorum_ids@;
                        while k < more.len()
                            invariant
                                k <= more@.len(),
                                quorum_ids@ == base + more@.subrange(0, k as int),
                            decreases more@.len() - k,
                        {
                            quorum_ids.push(more[k]);
                            k = k + 1;
                            assert(quorum_ids@ =~= base + more@.subrange(0, k as int));
                        }
                        assert(more@.subrange(0, k as int) =~= more@);
                    },
                    None => {
                        proof { lemma_fold_stays_none(fv, (i + 1) as nat, fv.len()); }
                        return None;
                    },
                }
            } else {
                proof { lemma_fold_stays_none(fv, (i + 1) as nat, fv.len()); }
                return None;
            }
        }
        i = i + 1;
    }
    Some(FrameRef { commitment, blob_length, quorum_ids })
}

proof fn lemma_fold_stays_none(fields: Seq<(nat, u8, nat, Seq<u8>)>, k: nat, n: nat)
    requires
        k <= n,
        frame_ref_fold(fields, k) is None,
    ensures
        frame_ref_fold(fields, n) is None,
    decreases n,
{
    if k < n {
        lemma_fold_stays_none(fields, k, (n - 1) as nat);
    }
}

proof fn lemma_oneof_stays_none(fields: Seq<(nat, u8, nat, Seq<u8>)>, k: nat, n: nat)
    requires
        k <= n,
        oneof_fold(fields, k) is None,
    ensures
        oneof_fold(fields, n) is None,
    decreases n,
{
    if k < n {
        lemma_oneof_stays_none(fields, k, (n - 1) as nat);
    }
}

/// What went wrong when decoding a calldata frame.
#[derive(Clone, Copy, Debug, PartialEq, Eq, Structural)]
pub struct FrameDecodeError;

/// Decodes a calldata frame: `Ok(None)` where it sets no value.
pub fn decode_calldata_frame(s: &[u8]) -> (r: Result<Option<CalldataValue>, FrameDecodeError>)
    ensures
        r matches Ok(None) ==> calldata_spec(s@) == Some(
            None::<(bool, Seq<u8>, (Seq<u8>, u32, Seq<u32>))>,
        ),
        r matches Ok(Some(v)) ==> calldata_spec(s@) == Some(Some(calldata_view(v))),
        r is Err ==> calldata_spec(s@) is None,
{
    let fields = match read_fields(s) {
        Some(f) => f,
        None => return Err(FrameDecodeError),
    };
    let ghost fv = fields@.map_values(|f: Field| field_view(f));
    let mut last: Option<usize> = None;
    let mut i: usize = 0;
    while i < fields.len()
        invariant
            i <= fields@.len(),
            fv == fields@.map_values(|f: Field| field_view(f)),
            fields_spec(s@) == Some(fv),
            fv.len() == fields@.len(),
            oneof_fold(fv, i as nat) == match last {
                Some(j) => Some(Some((fv[j as int].0 == 2, fv[j as int].3))),
                None => Some(None::<(bool, Seq<u8>)>),
            },
            last matches Some(j) ==> j < i && (fv[j as int].0 == 1 || fv[j as int].0 == 2),
        decreases fields@.len() - i,
    {
        let f = &fields[i];
        assert(fv[i as int] == field_view(*f));
        if f.number == 1 || f.number == 2 {
            if f.wire_type != 2 {
                proof { lemma_oneof_stays_none(fv, (i + 1) as nat, fv.len()); }
                return Err(FrameDecodeError);
            }
            last = Some(i);
        }
        i = i + 1;
    }
    match last {
        None => Ok(None),
        Some(j) => {
            assert(fv[j as int] == field_view(fields@[j as int]));
            if fields[j].number == 1 {
                Ok(Some(CalldataValue::Frame(fields[j].bytes.clone())))
            } else {
                match decode_frame_ref(fields[j].bytes.as_slice()) {
                    Some(r) => Ok(Some(CalldataValue::FrameRef(r))),
                    None => Err(FrameDecodeError),
                }
            }
        },
    }
}

} // verus!

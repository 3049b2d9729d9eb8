//! An in-memory preimage store: an append-only log of writes in which a read
//! returns the latest value written under a key.

use crate::keys::{PreimageKey, PreimageKeyType};
use vstd::prelude::*;

verus! {

/// One write: a key and the bytes stored under it.
#[derive(Clone, Debug)]
pub struct Entry {
    pub key: PreimageKey,
    pub value: Vec<u8>,
}

impl View for Entry {
    type V = ((PreimageKeyType, Seq<u8>), Seq<u8>);

    open spec fn view(&self) -> ((PreimageKeyType, Seq<u8>), Seq<u8>) {
        (self.key@, self.value@)
    }
}

/// The views of a sequence of writes.
pub open spec fn entries_view(s: Seq<Entry>) -> Seq<((PreimageKeyType, Seq<u8>), Seq<u8>)> {
    s.map_values(|e: Entry| e@)
}

/// The value last written under `key` in `log`, if any.
pub open spec fn lookup(
    log: Seq<((PreimageKeyType, Seq<u8>), Seq<u8>)>,
    key: (PreimageKeyType, Seq<u8>),
) -> Option<Seq<u8>>
    decreases log.len(),
{
    if log.len() == 0 {
        None
    } else if log.last().0 == key {
        Some(log.last().1)
    } else {
        lookup(log.drop_last(), key)
    }
}

/// A key-value store keyed by preimage keys.
pub struct KvStore {
    entries: Vec<Entry>,
}

impl View for KvStore {
    type V = Seq<((PreimageKeyType, Seq<u8>), Seq<u8>)>;

    /// Every write, oldest first.
    closed spec fn view(&self) -> Seq<((PreimageKeyType, Seq<u8>), Seq<u8>)> {
        entries_view(self.entries@)
    }
}

/// Whether two byte strings are equal.
pub fn bytes_equal(a: &[u8], b: &[u8]) -> (r: bool)
    ensures
        r == (a@ == b@),
{
    if a.len() != b.len() {
        return false;
    }
    let mut i: usize = 0;
    while i < a.len()
        invariant
            a@.len() == b@.len(),
            i <= a@.len(),
            forall|j: int| 0 <= j < i ==> a@[j] == b@[j],
        decreases a@.len() - i,
    {
        if a[i] != b[i] {
            return false;
        }
        i = i + 1;
    }
    assert(a@ =~= b@);
    true
}

impl KvStore {
    /// An empty store.
    pub fn new() -> (r: KvStore)
        ensures
            r@ == Seq::<((PreimageKeyType, Seq<u8>), Seq<u8>)>::empty(),
    {
        let r = KvStore { entries: Vec::new() };
        assert(r@ =~= Seq::<((PreimageKeyType, Seq<u8>), Seq<u8>)>::empty());
        r
    }

    /// The number of writes made so far.
    pub fn len(&self) -> (r: usize)
        ensures
            r == self@.len(),
    {
        self.entries.len()
    }

    /// The value last written under `key`.
    pub fn get(&self, key: &PreimageKey) -> (r: Option<Vec<u8>>)
        ensures
            r matches Some(v) ==> lookup(self@, key@) == Some(v@),
            r is None ==> lookup(self@, key@) is None,
    {
        let mut i: usize = self.entries.len();
        assert(self@.subrange(0, i as int) =~= self@);
        while i > 0
            invariant
                i <= self.entries@.len(),
                self@ == entries_view(self.entries@),
                lookup(self@, key@) == lookup(self@.subrange(0, i as int), key@),
            decreases i,
        {
            let e = &self.entries[i - 1];
            proof {
                let s = self@.subrange(0, i as int);
                assert(s.drop_last() =~= self@.subrange(0, i - 1));
                assert(s.last() == e@);
            }
            if e.key.key_type == key.key_type && bytes_equal(e.key.digest.as_slice(), key.digest.as_slice()) {
                return Some(e.value.clone());
            }
            i = i - 1;
        }
        None
    }

    /// Writes `value` under `key`.
    pub fn set(&mut self, key: PreimageKey, value: Vec<u8>)
        ensures
            final(self)@ == old(self)@.push((key@, value@)),
    {
        let e = Entry { key, value };
        self.entries.push(e);
        assert(entries_view(self.entries@) =~= entries_view(old(self).entries@).push(e@));
    }

    /// Writes every entry of `writes`, in order.
    pub fn set_all(&mut self, writes: Vec<Entry>)
        ensures
            final(self)@ == old(self)@ + entries_view(writes@),
    {
        let mut i: usize = 0;
        while i < writes.len()
            invariant
                i <= writes@.len(),
                self@ == old(self)@ + entries_view(writes@.subrange(0, i as int)),
            decreases writes@.len() - i,
        {
            let e = &writes[i];
            let k = PreimageKey { key_type: e.key.key_type, digest: e.key.digest.clone() };
            let copy = Entry { key: k, value: e.value.clone() };
            let ghost before = self.entries@;
            self.entries.push(copy);
            proof {
                assert(copy@ == e@);
                assert(entries_view(self.entries@) =~= entries_view(before).push(copy@));
                assert(writes@.subrange(0, i + 1) =~= writes@.subrange(0, i as int).push(writes@[i as int]));
                assert(entries_view(writes@.subrange(0, i + 1)) =~= entries_view(writes@.subrange(0, i as int)).push(e@));
                assert(entries_view(self.entries@) =~= entries_view(old(self).entries@) + entries_view(writes@.subrange(0, i + 1)));
            }
            i = i + 1;
        }
        assert(writes@.subrange(0, i as int) =~= writes@);
    }
}

} // verus!

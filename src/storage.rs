//! The node's local key/value store.
use vstd::prelude::*;
use crate::crypto::{same_bytes, to_byte_vec};

verus! {

/// One stored value.
#[derive(Debug)]
pub struct StorageEntry {
    pub key: Vec<u8>,
    pub value: Vec<u8>,
}

/// The value of `key` among `s`, the later entry winning.
pub open spec fn lookup_value(s: Seq<StorageEntry>, key: Seq<u8>) -> Option<Seq<u8>>
    decreases s.len(),
{
    if s.len() == 0 {
        None
    } else if s.last().key@ == key {
        Some(s.last().value@)
    } else {
        lookup_value(s.drop_last(), key)
    }
}

/// The position of the last entry of `key` among `s`, or -1.
pub open spec fn value_index(s: Seq<StorageEntry>, key: Seq<u8>) -> int
    decreases s.len(),
{
    if s.len() == 0 {
        -1
    } else if s.last().key@ == key {
        s.len() - 1
    } else {
        value_index(s.drop_last(), key)
    }
}

proof fn lemma_value_index(s: Seq<StorageEntry>, key: Seq<u8>)
    ensures
        -1 <= value_index(s, key) < s.len(),
        value_index(s, key) >= 0 ==> s[value_index(s, key)].key@ == key,
        value_index(s, key) >= 0 ==> lookup_value(s, key) == Some(s[value_index(s, key)].value@),
        value_index(s, key) < 0 ==> lookup_value(s, key).is_none(),
    decreases s.len(),
{
    if s.len() > 0 {
        lemma_value_index(s.drop_last(), key);
    }
}

proof fn lemma_lookup_value_update(s: Seq<StorageEntry>, key: Seq<u8>, e: StorageEntry, k: Seq<u8>)
    requires
        value_index(s, key) >= 0,
        e.key@ == key,
    ensures
        lookup_value(s.update(value_index(s, key), e), k) == if k == key {
            Some(e.value@)
        } else {
            lookup_value(s, k)
        },
    decreases s.len(),
{
    lemma_value_index(s, key);
    let i = value_index(s, key);
    let t = s.update(i, e);
    if i == s.len() - 1 {
        assert(t.drop_last() =~= s.drop_last());
    } else {
        assert(t.drop_last() =~= s.drop_last().update(i, e));
        lemma_lookup_value_update(s.drop_last(), key, e, k);
    }
}

/// Values by key.
#[derive(Debug)]
pub struct Storage {
    entries: Vec<StorageEntry>,
}

impl Storage {
    /// The stored values, by key.
    pub closed spec fn view(&self) -> Map<Seq<u8>, Seq<u8>> {
        Map::new(
            |k: Seq<u8>| lookup_value(self.entries@, k).is_some(),
            |k: Seq<u8>| lookup_value(self.entries@, k).unwrap(),
        )
    }

    /// An empty store.
    pub fn new() -> (r: Self)
        ensures
            r.view() == Map::<Seq<u8>, Seq<u8>>::empty(),
    {
        let r = Storage { entries: Vec::new() };
        assert(r.view() =~= Map::<Seq<u8>, Seq<u8>>::empty());
        r
    }

    fn position(&self, key: &[u8]) -> (r: Option<usize>)
        ensures
            value_index(self.entries@, key@) < 0 ==> r.is_none(),
            value_index(self.entries@, key@) >= 0 ==> r.is_some(),
            r.is_some() ==> r.unwrap() as int == value_index(self.entries@, key@),
            r.is_some() ==> r.unwrap() < self.entries@.len(),
    {
        proof {
            lemma_value_index(self.entries@, key@);
        }
        let mut i: usize = self.entries.len();
        assert(self.entries@.subrange(0, i as int) =~= self.entries@);
        while i > 0
            invariant
                i <= self.entries@.len(),
                value_index(self.entries@, key@) == value_index(self.entries@.subrange(0, i as int), key@),
            decreases i,
        {
            let ghost p = self.entries@.subrange(0, i as int);
            assert(p.drop_last() =~= self.entries@.subrange(0, i - 1));
            assert(p.last() == self.entries@[i - 1]);
            if same_bytes(self.entries[i - 1].key.as_slice(), key) {
                return Some(i - 1);
            }
            i = i - 1;
        }
        None
    }

    /// The value stored under `key`, if any.
    pub fn get(&self, key: &[u8]) -> (r: Option<Vec<u8>>)
        ensures
            r.is_some() == self.view().contains_key(key@),
            r.is_some() ==> r.unwrap()@ == self.view()[key@],
    {
        proof {
            lemma_value_index(self.entries@, key@);
        }
        match self.position(key) {
            Some(i) => Some(to_byte_vec(self.entries[i].value.as_slice())),
            None => None,
        }
    }

    /// Whether `key` holds exactly `value`.
    pub fn holds_value(&self, key: &[u8], value: &[u8]) -> (r: bool)
        ensures
            r == (self.view().contains_key(key@) && self.view()[key@] == value@),
    {
        proof {
            lemma_value_index(self.entries@, key@);
        }
        match self.position(key) {
            Some(i) => same_bytes(self.entries[i].value.as_slice(), value),
            None => false,
        }
    }

    /// Stores `value` under `key`, replacing any earlier value.
    pub fn insert(&mut self, key: &[u8], value: &[u8])
        ensures
            final(self).view() == old(self).view().insert(key@, value@),
    {
        proof {
            lemma_value_index(self.entries@, key@);
        }
        let entry = StorageEntry { key: to_byte_vec(key), value: to_byte_vec(value) };
        match self.position(key) {
            Some(i) => {
                proof {
                    assert forall|k: Seq<u8>| #[trigger] lookup_value(old(self).entries@.update(i as int, entry), k)
                        == if k == key@ {
                        Some(value@)
                    } else {
                        lookup_value(old(self).entries@, k)
                    } by {
                        lemma_lookup_value_update(old(self).entries@, key@, entry, k);
                    }
                }
                self.entries.set(i, entry);
            },
            None => {
                self.entries.push(entry);
                assert(self.entries@.drop_last() == old(self).entries@);
            },
        }
        assert(self.view() =~= old(self).view().insert(key@, value@));
    }
}

} // verus!

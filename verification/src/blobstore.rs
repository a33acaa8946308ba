//! The blob store: reference-counted records kept in an ordered key-value
//! table, each under its digest, in encoded form.

use crate::assoc::{as_map, distinct_keys, holds_at, lemma_binding, lemma_bound_occurs,
    lemma_stands_for, Pair};
use crate::codec::{check_stored_record, decoded_record, encoded_record, is_stored_record,
    rlp_decode, rlp_encode, MAX_PAYLOAD_LEN};
use crate::hash::H256;
use crate::kvstore::{ascending, lemma_ascending_distinct, pair_keys, KvStore};
use crate::model::Record;
use vstd::prelude::*;

verus! {

/// The record that stored bytes decode to.
pub open spec fn record_of(bytes: Seq<u8>) -> Record {
    let parts = decoded_record(bytes).unwrap();
    Record { payload: parts.0, rc: parts.1 as int }
}

/// A digest paired with a stored count, as a binding.
pub open spec fn rc_pairs(counts: Seq<(H256, u32)>) -> Seq<Pair<int>> {
    counts.map_values(|c: (H256, u32)| (c.0@, c.1 as int))
}

/// The backing store of the database. Its view maps each digest that has a
/// record to the record's payload and count.
pub struct BlobStore {
    table: KvStore,
}

impl View for BlobStore {
    type V = Map<Seq<u8>, Record>;

    /// The table underneath, decoded.
    open spec fn view(&self) -> Map<Seq<u8>, Record> {
        self.stored().map_values(|bytes: Seq<u8>| record_of(bytes))
    }
}

impl BlobStore {
    /// The table underneath: each digest with the encoded form of its record.
    pub closed spec fn stored(&self) -> Map<Seq<u8>, Seq<u8>> {
        self.table@
    }

    /// The store's invariant: every key is a 32-byte digest, and every value
    /// is the stored form of a record with a positive count.
    pub closed spec fn wf(&self) -> bool {
        &&& self.table.wf()
        &&& forall|k: Seq<u8>| #[trigger]
            self.table@.contains_key(k) ==> k.len() == 32 && is_stored_record(self.table@[k])
    }

    /// In a well-formed store every key is a digest, every count a positive
    /// 32-bit number, and every payload short enough to be encoded again.
    pub proof fn lemma_wf(&self)
        requires
            self.wf(),
        ensures
            forall|k: Seq<u8>| #[trigger]
                self@.contains_key(k) ==> k.len() == 32 && 0 < self@[k].rc <= u32::MAX
                    && self@[k].payload.len() <= MAX_PAYLOAD_LEN,
    {
        assert forall|k: Seq<u8>| #[trigger] self@.contains_key(k) implies k.len() == 32 && 0
            < self@[k].rc <= u32::MAX && self@[k].payload.len() <= MAX_PAYLOAD_LEN by {
            assert(self.table@.contains_key(k));
        }
    }

    /// An empty store.
    pub fn new() -> (s: BlobStore)
        ensures
            s.wf(),
            s@ == Map::<Seq<u8>, Record>::empty(),
            s.stored() == Map::<Seq<u8>, Seq<u8>>::empty(),
    {
        let s = BlobStore { table: KvStore::new() };
        assert(s@ =~= Map::<Seq<u8>, Record>::empty());
        s
    }

    /// Takes a table over as a store, if every binding of it is a 32-byte key
    /// with the stored form of a record.
    pub fn open(table: KvStore) -> (r: Option<BlobStore>)
        requires
            table.wf(),
        ensures
            r is Some <==> forall|k: Seq<u8>| #[trigger]
                table@.contains_key(k) ==> k.len() == 32 && is_stored_record(table@[k]),
            r matches Some(s) ==> s.wf() && s.stored() == table@,
    {
        let n = table.len();
        let mut i: usize = 0;
        proof {
            table.lemma_ordered();
        }
        while i < n
            invariant
                table.wf(),
                n == table.ordered().len(),
                i <= n,
                distinct_keys(table.ordered()),
                as_map(table.ordered()) == table@,
                forall|j: int|
                    0 <= j < i ==> (#[trigger] table.ordered()[j]).0.len() == 32
                        && is_stored_record(table.ordered()[j].1),
            decreases n - i,
        {
            let (key, value) = table.entry(i);
            if key.len() != 32 || !check_stored_record(value.as_slice()) {
                proof {
                    lemma_binding(table.ordered(), i as int);
                }
                return None;
            }
            i += 1;
        }
        proof {
            assert forall|k: Seq<u8>| #[trigger] table@.contains_key(k) implies k.len() == 32
                && is_stored_record(table@[k]) by {
                let j = lemma_bound_occurs(table.ordered(), k);
                assert(table.ordered()[j].0.len() == 32);
            }
        }
        Some(BlobStore { table })
    }

    /// The table underneath, for whoever persists it.
    pub fn table(&self) -> (t: &KvStore)
        requires
            self.wf(),
        ensures
            t.wf(),
            t@ == self.stored(),
    {
        &self.table
    }

    /// The record stored under `key`: its payload and its count.
    pub fn get_record(&self, key: &H256) -> (r: Option<(Vec<u8>, u32)>)
        requires
            self.wf(),
        ensures
            match r {
                Some((payload, rc)) => self@.contains_key(key@) && self@[key@] == (Record {
                    payload: payload@,
                    rc: rc as int,
                }),
                None => !self@.contains_key(key@),
            },
    {
        let k = key.bytes();
        match self.table.get(k.as_slice()) {
            Some(bytes) => {
                assert(self.table@.contains_key(key@));
                rlp_decode(bytes.as_slice())
            },
            None => None,
        }
    }

    /// Stores a record under `key`, replacing the one that was there.
    pub fn put_record(&mut self, key: &H256, payload: &[u8], rc: u32)
        requires
            old(self).wf(),
            rc > 0,
            payload@.len() <= MAX_PAYLOAD_LEN,
        ensures
            final(self).wf(),
            final(self)@ == old(self)@.insert(key@, Record { payload: payload@, rc: rc as int }),
            final(self).stored() == old(self).stored().insert(key@, encoded_record(rc, payload@)),
    {
        let bytes = rlp_encode(rc, payload);
        self.table.put(key.bytes(), bytes);
        assert(final(self)@ =~= old(self)@.insert(key@, Record { payload: payload@, rc: rc as int }));
    }

    /// Removes the record stored under `key`, if there is one.
    pub fn remove_record(&mut self, key: &H256)
        requires
            old(self).wf(),
        ensures
            final(self).wf(),
            final(self)@ == old(self)@.remove(key@),
            final(self).stored() == old(self).stored().remove(key@),
    {
        let k = key.bytes();
        self.table.delete(k.as_slice());
        assert(final(self)@ =~= old(self)@.remove(key@));
    }

    /// Every digest that has a record, in ascending order, with its count.
    pub fn iter_all(&self) -> (out: Vec<(H256, u32)>)
        requires
            self.wf(),
        ensures
            ascending(pair_keys(rc_pairs(out@))),
            distinct_keys(rc_pairs(out@)),
            as_map(rc_pairs(out@)) == self@.map_values(|r: Record| r.rc),
    {
        let n = self.table.len();
        let mut out: Vec<(H256, u32)> = Vec::new();
        let mut i: usize = 0;
        let ghost ord = self.table.ordered();
        proof {
            self.table.lemma_ordered();
        }
        while i < n
            invariant
                self.wf(),
                ord == self.table.ordered(),
                n == ord.len(),
                i <= n,
                distinct_keys(ord),
                as_map(ord) == self.table@,
                out@.len() == i,
                forall|j: int|
                    0 <= j < i ==> (#[trigger] out@[j]).0@ == ord[j].0 && out@[j].1 as int
                        == record_of(ord[j].1).rc,
            decreases n - i,
        {
            let (key, value) = self.table.entry(i);
            proof {
                lemma_binding(ord, i as int);
                assert(self.table@.contains_key(ord[i as int].0));
            }
            let decoded = rlp_decode(value.as_slice());
            if let Some((_, rc)) = decoded {
                out.push((H256::from_slice(key.as_slice()), rc));
            }
            i += 1;
        }
        proof {
            let cs = rc_pairs(out@);
            let m = self@.map_values(|r: Record| r.rc);
            assert(pair_keys(cs) =~= pair_keys(ord));
            lemma_ascending_distinct(cs);
            assert forall|a: int| 0 <= a < cs.len() implies m.contains_key((#[trigger] cs[a]).0)
                && m[cs[a].0] == cs[a].1 by {
                lemma_binding(ord, a);
                assert(cs[a].0 == ord[a].0);
            }
            assert forall|k: Seq<u8>| #[trigger] m.contains_key(k) implies exists|a: int|
                holds_at(cs, k, a) by {
                assert(self.table@.contains_key(k));
                let a = lemma_bound_occurs(ord, k);
                assert(holds_at(cs, k, a));
            }
            lemma_stands_for(cs, m);
        }
        out
    }
}

} // verus!

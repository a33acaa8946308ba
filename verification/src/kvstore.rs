//! An ordered key-value table held in memory: byte-string keys kept in
//! ascending lexicographic order, each bound to a byte-string value.

use crate::assoc::{as_map, distinct_keys, holds_at, lemma_binding, lemma_empty, lemma_insert_fresh,
    lemma_remove, lemma_replace, lemma_size, lemma_unbound, Pair};
use vstd::prelude::*;
use vstd::slice::slice_to_vec;

verus! {

/// `a` and `b` agree before index `i`, where `a` ends or holds the smaller byte.
pub open spec fn parts_at(a: Seq<u8>, b: Seq<u8>, i: int) -> bool {
    &&& 0 <= i <= a.len()
    &&& i < b.len()
    &&& forall|j: int| 0 <= j < i ==> a[j] == b[j]
    &&& (i < a.len() ==> a[i] < b[i])
}

/// Lexicographic order on keys: `a` is a proper prefix of `b`, or holds the
/// smaller byte where the two first differ.
pub open spec fn key_lt(a: Seq<u8>, b: Seq<u8>) -> bool {
    exists|i: int| parts_at(a, b, i)
}

/// Every key stands before all the keys that follow it.
pub open spec fn ascending(keys: Seq<Seq<u8>>) -> bool {
    forall|i: int, j: int| 0 <= i < j < keys.len() ==> key_lt(#[trigger] keys[i], #[trigger] keys[j])
}

/// No key stands before itself.
pub proof fn lemma_key_lt_irreflexive(a: Seq<u8>)
    ensures
        !key_lt(a, a),
{
}

/// The order is transitive.
pub proof fn lemma_key_lt_transitive(a: Seq<u8>, b: Seq<u8>, c: Seq<u8>)
    requires
        key_lt(a, b),
        key_lt(b, c),
    ensures
        key_lt(a, c),
{
    let i = choose|i: int| parts_at(a, b, i);
    let j = choose|j: int| parts_at(b, c, j);
    let m = if i <= j { i } else { j };
    assert(parts_at(a, c, m));
}

/// The outcome of comparing two keys.
#[derive(Clone, Copy, Debug, PartialEq, Eq)]
pub enum KeyOrder {
    /// The first key stands before the second.
    Before,
    /// The two keys are equal.
    Same,
    /// The first key stands after the second.
    After,
}

/// Compares two keys lexicographically.
pub fn order_keys(a: &[u8], b: &[u8]) -> (r: KeyOrder)
    ensures
        r == KeyOrder::Before <==> key_lt(a@, b@),
        r == KeyOrder::Same <==> a@ == b@,
        r == KeyOrder::After <==> key_lt(b@, a@),
{
    proof {
        lemma_key_lt_irreflexive(a@);
        if key_lt(a@, b@) && key_lt(b@, a@) {
            lemma_key_lt_transitive(a@, b@, a@);
        }
    }
    let mut i: usize = 0;
    while i < a.len() && i < b.len()
        invariant
            i <= a@.len(),
            i <= b@.len(),
            forall|j: int| 0 <= j < i ==> a@[j] == b@[j],
        decreases a@.len() - i,
    {
        if a[i] < b[i] {
            assert(parts_at(a@, b@, i as int));
            return KeyOrder::Before;
        }
        if a[i] > b[i] {
            assert(parts_at(b@, a@, i as int));
            return KeyOrder::After;
        }
        i += 1;
    }
    if a.len() < b.len() {
        assert(parts_at(a@, b@, i as int));
        KeyOrder::Before
    } else if b.len() < a.len() {
        assert(parts_at(b@, a@, i as int));
        KeyOrder::After
    } else {
        assert(a@ =~= b@);
        KeyOrder::Same
    }
}

/// One binding of the table.
pub struct Slot {
    key: Vec<u8>,
    value: Vec<u8>,
}

/// An ordered table from byte-string keys to byte-string values.
///
/// Its view is the map it holds. The slots are kept in ascending key order,
/// so a key is found by bisection and `keys` walks the whole range in order.
pub struct KvStore {
    slots: Vec<Slot>,
}

/// The keys of a sequence of slots, in their order.
pub closed spec fn slot_keys(slots: Seq<Slot>) -> Seq<Seq<u8>> {
    slots.map_values(|s: Slot| s.key@)
}

/// The slots as key/value pairs.
pub closed spec fn slot_pairs(slots: Seq<Slot>) -> Seq<Pair<Seq<u8>>> {
    slots.map_values(|s: Slot| (s.key@, s.value@))
}

/// The keys of a sequence of bindings, in their order.
pub open spec fn pair_keys<V>(pairs: Seq<Pair<V>>) -> Seq<Seq<u8>> {
    pairs.map_values(|p: Pair<V>| p.0)
}

/// Bindings whose keys ascend hold no key twice.
pub proof fn lemma_ascending_distinct<V>(pairs: Seq<Pair<V>>)
    requires
        ascending(pair_keys(pairs)),
    ensures
        distinct_keys(pairs),
{
    let ks = pair_keys(pairs);
    assert forall|i: int, j: int| 0 <= i < j < pairs.len() implies (#[trigger] pairs[i]).0 != (
    #[trigger] pairs[j]).0 by {
        assert(key_lt(ks[i], ks[j]));
        lemma_key_lt_irreflexive(ks[i]);
    }
}

proof fn lemma_slots_distinct(slots: Seq<Slot>)
    requires
        ascending(slot_keys(slots)),
    ensures
        distinct_keys(slot_pairs(slots)),
        pair_keys(slot_pairs(slots)) == slot_keys(slots),
{
    assert(pair_keys(slot_pairs(slots)) =~= slot_keys(slots));
    lemma_ascending_distinct(slot_pairs(slots));
}

impl View for KvStore {
    type V = Map<Seq<u8>, Seq<u8>>;

    closed spec fn view(&self) -> Map<Seq<u8>, Seq<u8>> {
        as_map(slot_pairs(self.slots@))
    }
}

impl KvStore {
    /// The table's invariant: the keys ascend strictly.
    pub closed spec fn wf(&self) -> bool {
        ascending(slot_keys(self.slots@))
    }

    /// An empty table.
    pub fn new() -> (t: KvStore)
        ensures
            t.wf(),
            t@ == Map::<Seq<u8>, Seq<u8>>::empty(),
    {
        let t = KvStore { slots: Vec::new() };
        proof {
            assert(slot_pairs(t.slots@) =~= Seq::empty());
            lemma_empty::<Seq<u8>>();
        }
        t
    }

    /// The bindings in ascending key order.
    pub closed spec fn ordered(&self) -> Seq<Pair<Seq<u8>>> {
        slot_pairs(self.slots@)
    }

    /// The ordered bindings hold each key of the table once, with its value,
    /// and their keys ascend.
    pub proof fn lemma_ordered(&self)
        requires
            self.wf(),
        ensures
            ascending(pair_keys(self.ordered())),
            distinct_keys(self.ordered()),
            as_map(self.ordered()) == self@,
            self@.dom().finite(),
            self.ordered().len() == self@.dom().len(),
    {
        lemma_slots_distinct(self.slots@);
        lemma_size(slot_pairs(self.slots@));
    }

    /// The number of bindings.
    pub fn len(&self) -> (n: usize)
        requires
            self.wf(),
        ensures
            self@.dom().finite(),
            n == self@.dom().len(),
            n == self.ordered().len(),
    {
        proof {
            self.lemma_ordered();
        }
        self.slots.len()
    }

    /// The binding at position `i` of the ascending order.
    pub fn entry(&self, i: usize) -> (r: (&Vec<u8>, &Vec<u8>))
        requires
            self.wf(),
            i < self.ordered().len(),
        ensures
            (r.0@, r.1@) == self.ordered()[i as int],
    {
        (&self.slots[i].key, &self.slots[i].value)
    }

    /// The index of the first slot whose key does not stand before `key`.
    fn lower_bound(&self, key: &[u8]) -> (p: usize)
        requires
            self.wf(),
        ensures
            p <= self.slots@.len(),
            forall|i: int| 0 <= i < p ==> key_lt(#[trigger] slot_keys(self.slots@)[i], key@),
            forall|i: int|
                p <= i < self.slots@.len() ==> !key_lt(#[trigger] slot_keys(self.slots@)[i], key@),
    {
        let ghost ks = slot_keys(self.slots@);
        let mut lo: usize = 0;
        let mut hi: usize = self.slots.len();
        while lo < hi
            invariant
                self.wf(),
                ks == slot_keys(self.slots@),
                lo <= hi <= self.slots@.len(),
                forall|i: int| 0 <= i < lo ==> key_lt(#[trigger] ks[i], key@),
                forall|i: int| hi <= i < self.slots@.len() ==> !key_lt(#[trigger] ks[i], key@),
            decreases hi - lo,
        {
            let mid = lo + (hi - lo) / 2;
            let o = order_keys(self.slots[mid].key.as_slice(), key);
            assert(ks[mid as int] == self.slots@[mid as int].key@);
            match o {
                KeyOrder::Before => {
                    assert forall|i: int| 0 <= i < mid + 1 implies key_lt(#[trigger] ks[i], key@) by {
                        if i < mid {
                            assert(key_lt(ks[i], ks[mid as int]));
                            lemma_key_lt_transitive(ks[i], ks[mid as int], key@);
                        }
                    }
                    lo = mid + 1;
                },
                _ => {
                    assert forall|i: int| mid <= i < self.slots@.len() implies !key_lt(
                        #[trigger] ks[i],
                        key@,
                    ) by {
                        if mid < i && key_lt(ks[i], key@) {
                            assert(key_lt(ks[mid as int], ks[i]));
                            lemma_key_lt_transitive(ks[mid as int], ks[i], key@);
                        }
                    }
                    hi = mid;
                },
            }
        }
        lo
    }

    /// The index of the slot that holds `key`, if there is one.
    fn find(&self, key: &[u8]) -> (r: Option<usize>)
        requires
            self.wf(),
        ensures
            match r {
                Some(i) => i < self.slots@.len() && self.slots@[i as int].key@ == key@,
                None => !self@.contains_key(key@),
            },
    {
        let p = self.lower_bound(key);
        let ghost ks = slot_keys(self.slots@);
        if p < self.slots.len() {
            let o = order_keys(self.slots[p].key.as_slice(), key);
            assert(ks[p as int] == self.slots@[p as int].key@);
            if let KeyOrder::Same = o {
                return Some(p);
            }
        }
        proof {
            let ps = slot_pairs(self.slots@);
            assert forall|i: int| 0 <= i < ps.len() implies (#[trigger] ps[i]).0 != key@ by {
                assert(ps[i].0 == ks[i]);
                lemma_key_lt_irreflexive(key@);
                if i > p && ks[i] == key@ {
                    assert(key_lt(ks[p as int], ks[i]));
                }
            }
            lemma_unbound(ps, key@);
        }
        None
    }

    /// The value bound to `key`, if any.
    pub fn get(&self, key: &[u8]) -> (r: Option<&Vec<u8>>)
        requires
            self.wf(),
        ensures
            match r {
                Some(v) => self@.contains_key(key@) && self@[key@] == v@,
                None => !self@.contains_key(key@),
            },
    {
        match self.find(key) {
            Some(i) => {
                proof {
                    lemma_slots_distinct(self.slots@);
                    lemma_binding(slot_pairs(self.slots@), i as int);
                }
                Some(&self.slots[i].value)
            },
            None => None,
        }
    }

    /// Binds `key` to `value`, replacing an earlier binding of `key`.
    pub fn put(&mut self, key: Vec<u8>, value: Vec<u8>)
        requires
            old(self).wf(),
        ensures
            final(self).wf(),
            final(self)@ == old(self)@.insert(key@, value@),
    {
        let p = self.lower_bound(key.as_slice());
        let ghost before = self.slots@;
        let ghost ks = slot_keys(before);
        let ghost ps = slot_pairs(before);
        proof {
            lemma_slots_distinct(before);
        }
        let mut held = false;
        if p < self.slots.len() {
            let o = order_keys(self.slots[p].key.as_slice(), key.as_slice());
            assert(ks[p as int] == before[p as int].key@);
            if let KeyOrder::Same = o {
                held = true;
            }
        }
        if held {
            self.slots.set(p, Slot { key, value });
            proof {
                assert(slot_keys(self.slots@) =~= ks);
                assert(slot_pairs(self.slots@) =~= ps.update(p as int, (ps[p as int].0, value@)));
                lemma_replace(ps, p as int, value@);
            }
        } else {
            proof {
                assert forall|i: int| 0 <= i < ps.len() implies (#[trigger] ps[i]).0 != key@ by {
                    assert(ps[i].0 == ks[i]);
                    lemma_key_lt_irreflexive(key@);
                    if i > p && ks[i] == key@ {
                        assert(key_lt(ks[p as int], ks[i]));
                    }
                }
                lemma_unbound(ps, key@);
            }
            self.slots.insert(p, Slot { key, value });
            proof {
                let ks2 = slot_keys(self.slots@);
                assert(ks2 =~= ks.insert(p as int, key@));
                assert(slot_pairs(self.slots@) =~= ps.insert(p as int, (key@, value@)));
                lemma_insert_fresh(ps, p as int, key@, value@);
                assert forall|i: int, j: int| 0 <= i < j < ks2.len() implies key_lt(
                    #[trigger] ks2[i],
                    #[trigger] ks2[j],
                ) by {
                    let a = if i < p { i } else { i - 1 };
                    let b = if j < p { j } else { j - 1 };
                    if i != p && j != p {
                        assert(ks2[i] == ks[a] && ks2[j] == ks[b]);
                    } else if i == p {
                        assert(ks2[j] == ks[b]);
                        assert(key_lt(key@, ks[p as int]));
                        if b > p {
                            assert(key_lt(ks[p as int], ks[b]));
                            lemma_key_lt_transitive(key@, ks[p as int], ks[b]);
                        }
                    } else {
                        assert(ks2[i] == ks[a]);
                    }
                }
            }
        }
    }

    /// Removes the binding of `key`, if there is one.
    pub fn delete(&mut self, key: &[u8])
        requires
            old(self).wf(),
        ensures
            final(self).wf(),
            final(self)@ == old(self)@.remove(key@),
    {
        let ghost before = self.slots@;
        let ghost ks = slot_keys(before);
        let ghost ps = slot_pairs(before);
        match self.find(key) {
            Some(i) => {
                let _ = self.slots.remove(i);
                proof {
                    lemma_slots_distinct(before);
                    let ks2 = slot_keys(self.slots@);
                    assert(ks2 =~= ks.remove(i as int));
                    assert(slot_pairs(self.slots@) =~= ps.remove(i as int));
                    lemma_remove(ps, i as int);
                    assert forall|a: int, b: int| 0 <= a < b < ks2.len() implies key_lt(
                        #[trigger] ks2[a],
                        #[trigger] ks2[b],
                    ) by {
                        let a0 = if a < i { a } else { a + 1 };
                        let b0 = if b < i { b } else { b + 1 };
                        assert(ks2[a] == ks[a0] && ks2[b] == ks[b0]);
                    }
                }
            },
            None => {
                assert(self@ =~= old(self)@.remove(key@));
            },
        }
    }

    /// All keys, in ascending order.
    pub fn keys(&self) -> (out: Vec<Vec<u8>>)
        requires
            self.wf(),
        ensures
            ascending(out@.map_values(|k: Vec<u8>| k@)),
            forall|i: int| 0 <= i < out@.len() ==> self@.contains_key(#[trigger] out@[i]@),
            forall|k: Seq<u8>|
                self@.contains_key(k) ==> exists|i: int| 0 <= i < out@.len() && #[trigger] out@[i]@ == k,
            self@.dom().finite(),
            out@.len() == self@.dom().len(),
            out@.map_values(|k: Vec<u8>| k@) == pair_keys(self.ordered()),
    {
        let ghost ks = slot_keys(self.slots@);
        let ghost ps = slot_pairs(self.slots@);
        let mut out: Vec<Vec<u8>> = Vec::new();
        let mut i: usize = 0;
        while i < self.slots.len()
            invariant
                i <= self.slots@.len(),
                out@.len() == i,
                forall|j: int| 0 <= j < i ==> (#[trigger] out@[j])@ == self.slots@[j].key@,
            decreases self.slots@.len() - i,
        {
            out.push(slice_to_vec(self.slots[i].key.as_slice()));
            i += 1;
        }
        proof {
            lemma_slots_distinct(self.slots@);
            lemma_size(ps);
            assert(out@.map_values(|k: Vec<u8>| k@) =~= ks);
            assert forall|j: int| 0 <= j < out@.len() implies self@.contains_key(
                #[trigger] out@[j]@,
            ) by {
                lemma_binding(ps, j);
            }
            assert forall|k: Seq<u8>| self@.contains_key(k) implies exists|j: int|
                0 <= j < out@.len() && #[trigger] out@[j]@ == k by {
                let j = choose|j: int| holds_at(ps, k, j);
                assert(out@[j]@ == k);
            }
        }
        out
    }
}

} // verus!

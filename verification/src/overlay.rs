//! The memory overlay: pending changes of reference counts, with the payloads
//! they came with, keyed by digest.

use crate::assoc::{as_map, distinct_keys, holds_at, lemma_binding, lemma_bound_occurs, lemma_empty,
    lemma_push_fresh, lemma_replace, lemma_size, lemma_stands_for, lemma_unbound, Pair};
use crate::hash::{keccak256, H256};
use crate::model::{delta_of, stage_denote, stage_insert, stage_kill, Staged};
use vstd::prelude::*;
use vstd::slice::slice_to_vec;

verus! {

/// One entry of the overlay: a digest, the payload staged under it (empty
/// where only kills were staged) and the pending change of its count.
pub struct OverlayEntry {
    pub key: H256,
    pub value: Vec<u8>,
    pub rc: i32,
}

impl OverlayEntry {
    /// The entry as a binding of the overlay's map.
    pub open spec fn pair(self) -> Pair<Staged> {
        (self.key@, Staged { payload: self.value@, delta: self.rc as int })
    }
}

/// The bindings that a sequence of entries stands for, in its order.
pub open spec fn staged_pairs(entries: Seq<OverlayEntry>) -> Seq<Pair<Staged>> {
    entries.map_values(|e: OverlayEntry| e.pair())
}

/// No digest occurs twice among the entries.
pub open spec fn staged_distinct(entries: Seq<OverlayEntry>) -> bool {
    distinct_keys(staged_pairs(entries))
}

/// The map from digest to staged entry that the entries stand for.
pub open spec fn staged_map(entries: Seq<OverlayEntry>) -> Map<Seq<u8>, Staged> {
    as_map(staged_pairs(entries))
}

/// A digest paired with a count, as a binding.
pub open spec fn count_pairs(counts: Seq<(H256, i32)>) -> Seq<Pair<int>> {
    counts.map_values(|c: (H256, i32)| (c.0@, c.1 as int))
}

/// The staging area of the database. Its view maps each staged digest to its
/// payload and pending delta; the order of the entries carries no meaning.
pub struct MemoryOverlay {
    entries: Vec<OverlayEntry>,
}

impl View for MemoryOverlay {
    type V = Map<Seq<u8>, Staged>;

    closed spec fn view(&self) -> Map<Seq<u8>, Staged> {
        staged_map(self.entries@)
    }
}

impl MemoryOverlay {
    /// The overlay's invariant: no digest is staged twice.
    pub closed spec fn wf(&self) -> bool {
        staged_distinct(self.entries@)
    }

    /// A well-formed overlay stages finitely many digests, each with a delta
    /// that is a signed 32-bit number.
    pub proof fn lemma_wf(&self)
        requires
            self.wf(),
        ensures
            self@.dom().finite(),
            forall|k: Seq<u8>| #[trigger]
                self@.contains_key(k) ==> i32::MIN <= self@[k].delta <= i32::MAX,
    {
        let ps = staged_pairs(self.entries@);
        lemma_size(ps);
        assert forall|k: Seq<u8>| #[trigger] self@.contains_key(k) implies i32::MIN
            <= self@[k].delta <= i32::MAX by {
            let i = lemma_bound_occurs(ps, k);
            assert(ps[i] == self.entries@[i].pair());
        }
    }

    /// An empty overlay.
    pub fn new() -> (o: MemoryOverlay)
        ensures
            o.wf(),
            o@ == Map::<Seq<u8>, Staged>::empty(),
    {
        let o = MemoryOverlay { entries: Vec::new() };
        proof {
            assert(staged_pairs(o.entries@) =~= Seq::empty());
            lemma_empty::<Staged>();
        }
        o
    }

    /// The number of staged digests.
    pub fn len(&self) -> (n: usize)
        requires
            self.wf(),
        ensures
            self@.dom().finite(),
            n == self@.dom().len(),
    {
        proof {
            lemma_size(staged_pairs(self.entries@));
        }
        self.entries.len()
    }

    /// The index of the entry staged under `key`, if there is one.
    fn index_of(&self, key: &H256) -> (r: Option<usize>)
        requires
            self.wf(),
        ensures
            match r {
                Some(i) => i < self.entries@.len() && self.entries@[i as int].key@ == key@,
                None => !self@.contains_key(key@),
            },
    {
        let ghost ps = staged_pairs(self.entries@);
        let mut i: usize = 0;
        while i < self.entries.len()
            invariant
                i <= self.entries@.len(),
                ps == staged_pairs(self.entries@),
                forall|j: int| 0 <= j < i ==> (#[trigger] ps[j]).0 != key@,
            decreases self.entries@.len() - i,
        {
            if self.entries[i].key.same(key) {
                return Some(i);
            }
            assert(ps[i as int] == self.entries@[i as int].pair());
            i += 1;
        }
        proof {
            lemma_unbound(ps, key@);
        }
        None
    }

    /// The entry staged under `key`, if any, without changing anything.
    pub fn raw(&self, key: &H256) -> (r: Option<&OverlayEntry>)
        requires
            self.wf(),
        ensures
            match r {
                Some(e) => self@.contains_key(key@) && e.pair() == (key@, self@[key@]),
                None => !self@.contains_key(key@),
            },
    {
        match self.index_of(key) {
            Some(i) => {
                proof {
                    let ps = staged_pairs(self.entries@);
                    lemma_binding(ps, i as int);
                    assert(ps[i as int] == self.entries@[i as int].pair());
                }
                Some(&self.entries[i])
            },
            None => None,
        }
    }

    /// Stages one more reference to `value` under the digest `key`, which the
    /// caller vouches for: the delta goes up by one, and `value` becomes the
    /// payload of an entry that had none.
    pub fn emplace(&mut self, key: H256, value: Vec<u8>)
        requires
            old(self).wf(),
            delta_of(old(self)@, key@) < i32::MAX,
        ensures
            final(self).wf(),
            final(self)@ == stage_insert(old(self)@, key@, value@),
    {
        let ghost ps = staged_pairs(self.entries@);
        match self.index_of(&key) {
            Some(i) => {
                proof {
                    lemma_binding(ps, i as int);
                    assert(ps[i as int] == self.entries@[i as int].pair());
                }
                let ghost was = self.entries@[i as int];
                if self.entries[i].value.len() == 0 {
                    self.entries[i].value = value;
                }
                self.entries[i].rc = self.entries[i].rc + 1;
                proof {
                    let now = self.entries@[i as int].pair().1;
                    assert(staged_pairs(self.entries@) =~= ps.update(i as int, (ps[i as int].0, now)));
                    lemma_replace(ps, i as int, now);
                }
            },
            None => {
                let ghost fresh = Staged { payload: value@, delta: 1 };
                self.entries.push(OverlayEntry { key, value, rc: 1 });
                proof {
                    assert(staged_pairs(self.entries@) =~= ps.push((key@, fresh)));
                    lemma_push_fresh(ps, key@, fresh);
                }
            },
        }
    }

    /// Stages one more reference to `value` under its Keccak-256 digest, and
    /// returns the digest.
    pub fn insert(&mut self, value: &[u8]) -> (h: H256)
        requires
            old(self).wf(),
            delta_of(old(self)@, keccak256(value@)) < i32::MAX,
        ensures
            h@ == keccak256(value@),
            final(self).wf(),
            final(self)@ == stage_insert(old(self)@, h@, value@),
    {
        let h = H256::of(value);
        self.emplace(h, slice_to_vec(value));
        h
    }

    /// Stages the drop of one reference to `key`: the delta goes down by one.
    /// A digest that was not staged gets an entry without payload.
    pub fn kill(&mut self, key: &H256)
        requires
            old(self).wf(),
            delta_of(old(self)@, key@) > i32::MIN,
        ensures
            final(self).wf(),
            final(self)@ == stage_kill(old(self)@, key@),
    {
        let ghost ps = staged_pairs(self.entries@);
        match self.index_of(key) {
            Some(i) => {
                proof {
                    lemma_binding(ps, i as int);
                    assert(ps[i as int] == self.entries@[i as int].pair());
                }
                self.entries[i].rc = self.entries[i].rc - 1;
                proof {
                    let now = self.entries@[i as int].pair().1;
                    assert(staged_pairs(self.entries@) =~= ps.update(i as int, (ps[i as int].0, now)));
                    lemma_replace(ps, i as int, now);
                }
            },
            None => {
                let ghost fresh = Staged { payload: Seq::<u8>::empty(), delta: -1 };
                self.entries.push(OverlayEntry { key: *key, value: Vec::new(), rc: -1 });
                proof {
                    assert(staged_pairs(self.entries@) =~= ps.push((key@, fresh)));
                    lemma_push_fresh(ps, key@, fresh);
                }
            },
        }
    }

    /// Notes a payload read from the backing store under `key`, so that the
    /// overlay holds it: a digest that was not staged gets it at delta zero,
    /// an entry without payload gets it, and no delta changes.
    pub fn denote(&mut self, key: &H256, value: Vec<u8>)
        requires
            old(self).wf(),
        ensures
            final(self).wf(),
            final(self)@ == stage_denote(old(self)@, key@, value@),
    {
        let ghost ps = staged_pairs(self.entries@);
        match self.index_of(key) {
            Some(i) => {
                proof {
                    lemma_binding(ps, i as int);
                    assert(ps[i as int] == self.entries@[i as int].pair());
                }
                if self.entries[i].value.len() == 0 {
                    self.entries[i].value = value;
                    proof {
                        let now = self.entries@[i as int].pair().1;
                        assert(staged_pairs(self.entries@) =~= ps.update(
                            i as int,
                            (ps[i as int].0, now),
                        ));
                        lemma_replace(ps, i as int, now);
                    }
                }
            },
            None => {
                let ghost fresh = Staged { payload: value@, delta: 0 };
                self.entries.push(OverlayEntry { key: *key, value, rc: 0 });
                proof {
                    assert(staged_pairs(self.entries@) =~= ps.push((key@, fresh)));
                    lemma_push_fresh(ps, key@, fresh);
                }
            },
        }
    }

    /// Drops every entry.
    pub fn clear(&mut self)
        ensures
            final(self).wf(),
            final(self)@ == Map::<Seq<u8>, Staged>::empty(),
    {
        self.entries.clear();
        proof {
            assert(staged_pairs(self.entries@) =~= Seq::empty());
            lemma_empty::<Staged>();
        }
    }

    /// Hands out every entry and leaves the overlay empty.
    pub fn drain(&mut self) -> (out: Vec<OverlayEntry>)
        requires
            old(self).wf(),
        ensures
            final(self).wf(),
            final(self)@ == Map::<Seq<u8>, Staged>::empty(),
            staged_distinct(out@),
            staged_map(out@) == old(self)@,
            old(self)@.dom().finite(),
            out@.len() == old(self)@.dom().len(),
    {
        let mut out: Vec<OverlayEntry> = Vec::new();
        proof {
            lemma_size(staged_pairs(self.entries@));
        }
        core::mem::swap(&mut self.entries, &mut out);
        proof {
            assert(staged_pairs(self.entries@) =~= Seq::empty());
            lemma_empty::<Staged>();
        }
        out
    }

    /// A snapshot of the pending deltas: each staged digest once, with its
    /// delta.
    pub fn keys(&self) -> (out: Vec<(H256, i32)>)
        requires
            self.wf(),
        ensures
            distinct_keys(count_pairs(out@)),
            as_map(count_pairs(out@)) == self@.map_values(|s: Staged| s.delta),
    {
        let ghost ps = staged_pairs(self.entries@);
        let mut out: Vec<(H256, i32)> = Vec::new();
        let mut i: usize = 0;
        while i < self.entries.len()
            invariant
                i <= self.entries@.len(),
                out@.len() == i,
                forall|j: int|
                    0 <= j < i ==> (#[trigger] out@[j]).0@ == self.entries@[j].key@ && out@[j].1
                        == self.entries@[j].rc,
            decreases self.entries@.len() - i,
        {
            out.push((self.entries[i].key, self.entries[i].rc));
            i += 1;
        }
        proof {
            let cs = count_pairs(out@);
            let m = self@.map_values(|s: Staged| s.delta);
            assert forall|a: int, b: int| 0 <= a < b < cs.len() implies (#[trigger] cs[a]).0 != (
            #[trigger] cs[b]).0 by {
                assert(cs[a].0 == ps[a].0 && cs[b].0 == ps[b].0);
            }
            assert forall|a: int| 0 <= a < cs.len() implies m.contains_key((#[trigger] cs[a]).0)
                && m[cs[a].0] == cs[a].1 by {
                lemma_binding(ps, a);
                assert(ps[a] == self.entries@[a].pair());
            }
            assert forall|k: Seq<u8>| #[trigger] m.contains_key(k) implies exists|a: int|
                holds_at(cs, k, a) by {
                let a = lemma_bound_occurs(ps, k);
                assert(holds_at(cs, k, a));
            }
            lemma_stands_for(cs, m);
        }
        out
    }
}

} // verus!

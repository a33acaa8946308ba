//! The overlay database: a blob store seen through a memory overlay.
//!
//! `insert`, `emplace` and `kill` stage changes in the overlay. `lookup` and
//! `contains` answer as if the staged changes were already applied. `commit`
//! applies them to the store, `revert` drops them.

use crate::assoc::{as_map, distinct_keys, holds_at, lemma_binding, lemma_bound_occurs,
    lemma_push_fresh, lemma_replace, lemma_unbound, Pair};
use crate::blobstore::{rc_pairs, BlobStore};
use crate::codec::MAX_PAYLOAD_LEN;
use crate::hash::{keccak256, H256};
use crate::model::{DbView, Staged};
use crate::overlay::{count_pairs, staged_pairs, MemoryOverlay, OverlayEntry};
use vstd::prelude::*;
use vstd::slice::slice_to_vec;

verus! {

/// What can go wrong with the data itself.
#[derive(Clone, Copy, Debug, PartialEq, Eq)]
pub enum BaseDataError {
    /// A commit would leave a digest with more kills than references.
    NegativelyReferencedHash,
}

/// The errors of this library.
#[derive(Clone, Copy, Debug, PartialEq, Eq)]
pub enum UtilError {
    /// An error of the data layer.
    BaseData(BaseDataError),
}

/// What a commit does to the stored record of one digest.
#[derive(Debug, PartialEq, Eq)]
pub enum CommitAction {
    /// Nothing: the staged delta is zero.
    Keep,
    /// The record is removed: its count has come down to zero.
    Remove,
    /// The record is written with this payload and count.
    Store { payload: Vec<u8>, rc: u32 },
}

/// The sum of a stored count, zero where there is none, and a staged delta.
pub open spec fn settled_total(delta: i32, stored: Option<(Vec<u8>, u32)>) -> int {
    match stored {
        Some((_, rc)) => rc + delta,
        None => delta as int,
    }
}

/// Decides what a commit does with one staged entry, given the record that is
/// stored under the same digest.
///
/// A zero delta changes nothing. Otherwise the stored count and the delta are
/// added up as mathematical integers: a negative total is refused, a total of
/// zero removes the record, and a positive total is stored, with the payload
/// that the store already had, or with the staged one where it had none.
pub fn settle(delta: i32, staged: Vec<u8>, stored: Option<(Vec<u8>, u32)>) -> (r: Result<
    CommitAction,
    BaseDataError,
>)
    requires
        settled_total(delta, stored) <= u32::MAX,
    ensures
        r is Err <==> delta != 0 && settled_total(delta, stored) < 0,
        r matches Err(e) ==> e == BaseDataError::NegativelyReferencedHash,
        r == Ok::<CommitAction, BaseDataError>(CommitAction::Keep) <==> delta == 0,
        r == Ok::<CommitAction, BaseDataError>(CommitAction::Remove) <==> delta != 0
            && settled_total(delta, stored) == 0,
        r matches Ok(CommitAction::Store { payload, rc }) ==> rc == settled_total(delta, stored)
            && payload@ == (match stored {
            Some((kept, _)) => kept@,
            None => staged@,
        }),
{
    if delta == 0 {
        return Ok(CommitAction::Keep);
    }
    match stored {
        Some((kept, rc)) => {
            let total: i64 = rc as i64 + delta as i64;
            if total < 0 {
                Err(BaseDataError::NegativelyReferencedHash)
            } else if total == 0 {
                Ok(CommitAction::Remove)
            } else {
                Ok(CommitAction::Store { payload: kept, rc: total as u32 })
            }
        },
        None => {
            if delta < 0 {
                Err(BaseDataError::NegativelyReferencedHash)
            } else {
                Ok(CommitAction::Store { payload: staged, rc: delta as u32 })
            }
        },
    }
}

/// A digest paired with an effective count, as a binding.
pub open spec fn total_pairs(counts: Seq<(H256, i64)>) -> Seq<Pair<int>> {
    counts.map_values(|c: (H256, i64)| (c.0@, c.1 as int))
}

/// Some pair at index `from` or later holds the key `k`.
spec fn among<V>(ps: Seq<Pair<V>>, k: Seq<u8>, from: int) -> bool {
    exists|j: int| from <= j && holds_at(ps, k, j)
}

/// The digests staged with a nonzero delta at index `from` or later.
spec fn touched_from(ps: Seq<Pair<Staged>>, from: int) -> Set<Seq<u8>> {
    Set::new(|k: Seq<u8>| exists|j: int| from <= j && holds_at(ps, k, j) && ps[j].1.delta != 0)
}

/// The index of `key` among `counts`, if it occurs there.
fn position_of(counts: &Vec<(H256, i64)>, key: &H256) -> (r: Option<usize>)
    ensures
        match r {
            Some(i) => i < counts@.len() && counts@[i as int].0@ == key@,
            None => forall|i: int| 0 <= i < counts@.len() ==> (#[trigger] counts@[i]).0@ != key@,
        },
{
    let mut i: usize = 0;
    while i < counts.len()
        invariant
            i <= counts@.len(),
            forall|j: int| 0 <= j < i ==> (#[trigger] counts@[j]).0@ != key@,
        decreases counts@.len() - i,
    {
        if counts[i].0.same(key) {
            return Some(i);
        }
        i += 1;
    }
    None
}

/// A reference-counted, content-addressed database: a backing store of
/// records under a memory overlay of pending changes.
pub struct OverlayDB {
    overlay: MemoryOverlay,
    backing: BlobStore,
}

impl View for OverlayDB {
    type V = DbView;

    closed spec fn view(&self) -> DbView {
        DbView { overlay: self.overlay@, backing: self.backing@ }
    }
}

impl OverlayDB {
    /// The database's invariant: overlay and store are well formed, and no
    /// staged payload is longer than a record can carry.
    pub closed spec fn wf(&self) -> bool {
        &&& self.overlay.wf()
        &&& self.backing.wf()
        &&& forall|k: Seq<u8>| #[trigger]
            self.overlay@.contains_key(k) ==> self.overlay@[k].payload.len() <= MAX_PAYLOAD_LEN
    }

    /// The view of a well-formed database is a well-formed model.
    pub proof fn lemma_wf(&self)
        requires
            self.wf(),
        ensures
            self@.wf(),
    {
        self.overlay.lemma_wf();
        self.backing.lemma_wf();
    }

    /// A database over `backing`, with nothing staged.
    pub fn new(backing: BlobStore) -> (db: OverlayDB)
        requires
            backing.wf(),
        ensures
            db.wf(),
            db@ == (DbView { overlay: Map::empty(), backing: backing@ }),
    {
        OverlayDB { overlay: MemoryOverlay::new(), backing }
    }

    /// A database over a fresh, empty store.
    pub fn new_temp() -> (db: OverlayDB)
        ensures
            db.wf(),
            db@ == (DbView { overlay: Map::empty(), backing: Map::empty() }),
    {
        OverlayDB::new(BlobStore::new())
    }

    /// The overlay: what is staged since the last commit or revert.
    pub fn overlay(&self) -> (o: &MemoryOverlay)
        requires
            self.wf(),
        ensures
            o.wf(),
            o@ == self@.overlay,
    {
        &self.overlay
    }

    /// The backing store, for whoever persists it.
    pub fn backing(&self) -> (b: &BlobStore)
        requires
            self.wf(),
        ensures
            b.wf(),
            b@ == self@.backing,
    {
        &self.backing
    }

    /// The staged change of `key`'s count; zero where nothing is staged.
    pub fn staged_delta(&self, key: &H256) -> (delta: i32)
        requires
            self.wf(),
        ensures
            delta == self@.delta(key@),
    {
        match self.overlay.raw(key) {
            Some(e) => e.rc,
            None => 0,
        }
    }

    /// Whether a commit is within the machine's limits: whether every count
    /// it would write, and the number of staged digests, fits in 32 bits.
    pub fn commit_fits(&self) -> (ok: bool)
        requires
            self.wf(),
        ensures
            ok == self@.commit_fits(),
    {
        proof {
            self.lemma_wf();
        }
        let ghost s = self@;
        if self.overlay.len() > u32::MAX as usize {
            return false;
        }
        let deltas = self.overlay.keys();
        let ghost dp = count_pairs(deltas@);
        let mut i: usize = 0;
        while i < deltas.len()
            invariant
                i <= deltas@.len(),
                self.wf(),
                s == self@,
                dp == count_pairs(deltas@),
                distinct_keys(dp),
                as_map(dp) == s.overlay.map_values(|e: Staged| e.delta),
                forall|j: int|
                    0 <= j < i && (#[trigger] dp[j]).1 != 0 ==> s.effective_rc(dp[j].0) <= u32::MAX,
            decreases deltas@.len() - i,
        {
            let key = deltas[i].0;
            let delta = deltas[i].1;
            proof {
                lemma_binding(dp, i as int);
                assert(dp[i as int] == (key@, delta as int));
                assert(s.overlay.contains_key(key@) && s.overlay[key@].delta == delta);
            }
            if delta != 0 {
                let rc: u32 = match self.backing.get_record(&key) {
                    Some((_, rc)) => rc,
                    None => 0,
                };
                if rc as i64 + delta as i64 > u32::MAX as i64 {
                    assert(s.touched().contains(key@));
                    return false;
                }
            }
            i += 1;
        }
        proof {
            assert forall|k: Seq<u8>| #[trigger] s.touched().contains(k) implies s.effective_rc(k)
                <= u32::MAX by {
                assert(as_map(dp).contains_key(k));
                let j = lemma_bound_occurs(dp, k);
                assert(dp[j].1 != 0);
            }
        }
        true
    }

    /// Stages one more reference to `value` under the digest `key`, which the
    /// caller vouches for.
    pub fn emplace(&mut self, key: H256, value: Vec<u8>)
        requires
            old(self).wf(),
            value@.len() <= MAX_PAYLOAD_LEN,
            old(self)@.delta(key@) < i32::MAX,
        ensures
            final(self).wf(),
            final(self)@ == old(self)@.emplaced(key@, value@),
    {
        self.overlay.emplace(key, value);
    }

    /// Stages one more reference to `value` under its Keccak-256 digest, and
    /// returns the digest.
    pub fn insert(&mut self, value: &[u8]) -> (h: H256)
        requires
            old(self).wf(),
            value@.len() <= MAX_PAYLOAD_LEN,
            old(self)@.delta(keccak256(value@)) < i32::MAX,
        ensures
            h@ == keccak256(value@),
            final(self).wf(),
            final(self)@ == old(self)@.inserted(value@),
    {
        self.overlay.insert(value)
    }

    /// As `insert`, for any value and any state: stages nothing and returns
    /// `None` where the value is longer than a record can carry or the delta
    /// of its digest is already the largest 32-bit number.
    pub fn try_insert(&mut self, value: &[u8]) -> (r: Option<H256>)
        requires
            old(self).wf(),
        ensures
            final(self).wf(),
            r is Some <==> value@.len() <= MAX_PAYLOAD_LEN && old(self)@.delta(keccak256(value@))
                < i32::MAX,
            r matches Some(h) ==> h@ == keccak256(value@) && final(self)@ == old(self)@.inserted(
                value@,
            ),
            r is None ==> final(self)@ == old(self)@,
    {
        if value.len() > MAX_PAYLOAD_LEN {
            return None;
        }
        let h = H256::of(value);
        let full = match self.overlay.raw(&h) {
            Some(e) => e.rc == i32::MAX,
            None => false,
        };
        if full {
            return None;
        }
        Some(self.insert(value))
    }

    /// Stages the drop of one reference to `key`.
    pub fn kill(&mut self, key: &H256)
        requires
            old(self).wf(),
            old(self)@.delta(key@) > i32::MIN,
        ensures
            final(self).wf(),
            final(self)@ == old(self)@.killed(key@),
    {
        self.overlay.kill(key);
    }

    /// Applies everything staged to the store and empties the overlay.
    ///
    /// Every digest staged with a nonzero delta is settled (see `settle`):
    /// its record is written with the effective count, or removed where that
    /// count is zero. The result is the number of digests so touched.
    ///
    /// The commit fails with `NegativelyReferencedHash` if, and only if, some
    /// touched digest would end with a negative count. The overlay is empty
    /// then too, and the store is left between the two states: each digest
    /// has either the record it had or the one the commit gives it.
    pub fn commit(&mut self) -> (r: Result<u32, UtilError>)
        requires
            old(self).wf(),
            old(self)@.commit_fits(),
        ensures
            final(self).wf(),
            final(self)@.overlay == Map::<Seq<u8>, Staged>::empty(),
            r is Ok <==> old(self)@.commit_ok(),
            r matches Ok(n) ==> n == old(self)@.touched().len() && final(self)@
                == old(self)@.committed(),
            r matches Err(e) ==> e == UtilError::BaseData(BaseDataError::NegativelyReferencedHash)
                && forall|k: Seq<u8>| #[trigger]
                old(self)@.commit_slot(k) == final(self)@.backing.get(k) || old(
                    self,
                )@.backing.get(k) == final(self)@.backing.get(k),
    {
        let ghost s0 = self@;
        proof {
            self.lemma_wf();
        }
        let mut staged = self.overlay.drain();
        let ghost all = staged@;
        let ghost ps = staged_pairs(all);
        let mut ret: u32 = 0;
        proof {
            let n = all.len() as int;
            assert forall|k: Seq<u8>| !among(ps, k, n) by {
                if among(ps, k, n) {
                    let x = choose|x: int| n <= x && holds_at(ps, k, x);
                    assert(holds_at(ps, k, x));
                }
            }
            assert(touched_from(ps, n) =~= Set::<Seq<u8>>::empty());
            assert(staged@ =~= all.subrange(0, n));
        }
        while staged.len() > 0
            invariant
                self.overlay.wf(),
                self.overlay@ == Map::<Seq<u8>, Staged>::empty(),
                self.backing.wf(),
                s0 == old(self)@,
                s0.wf(),
                s0.commit_fits(),
                ps == staged_pairs(all),
                distinct_keys(ps),
                as_map(ps) == s0.overlay,
                all.len() == s0.overlay.dom().len(),
                staged@.len() <= all.len(),
                staged@ == all.subrange(0, staged@.len() as int),
                forall|k: Seq<u8>|
                    self.backing@.get(k) == if #[trigger] among(ps, k, staged@.len() as int) {
                        s0.commit_slot(k)
                    } else {
                        s0.backing.get(k)
                    },
                forall|j: int|
                    staged@.len() <= j < all.len() && (#[trigger] ps[j]).1.delta != 0
                        ==> s0.effective_rc(ps[j].0) >= 0,
                touched_from(ps, staged@.len() as int).finite(),
                ret == touched_from(ps, staged@.len() as int).len(),
                ret <= all.len() - staged@.len(),
            decreases staged@.len(),
        {
            let ghost n = staged@.len() as int;
            let ghost before = self.backing@;
            let entry = staged.pop().unwrap();
            let ghost k = entry.key@;
            proof {
                assert(entry == all[n - 1]);
                assert(ps[n - 1] == entry.pair());
                lemma_binding(ps, n - 1);
                assert(holds_at(ps, k, n - 1));
                assert(staged@ =~= all.subrange(0, n - 1));
                assert(!among(ps, k, n)) by {
                    if among(ps, k, n) {
                        let x = choose|x: int| n <= x && holds_at(ps, k, x);
                        assert(ps[n - 1].0 != ps[x].0);
                    }
                }
                assert(before.get(k) == s0.backing.get(k));
                self.backing.lemma_wf();
            }
            let OverlayEntry { key, value, rc: delta } = entry;
            if delta != 0 {
                assert(s0.touched().contains(k));
                let stored = self.backing.get_record(&key);
                match settle(delta, value, stored) {
                    Err(e) => {
                        proof {
                            assert(s0.effective_rc(k) < 0);
                            assert forall|x: Seq<u8>| #[trigger]
                                s0.commit_slot(x) == self.backing@.get(x) || s0.backing.get(x)
                                    == self.backing@.get(x) by {
                                if among(ps, x, n) {
                                }
                            }
                        }
                        return Err(UtilError::BaseData(e));
                    },
                    Ok(CommitAction::Keep) => {},
                    Ok(CommitAction::Remove) => {
                        self.backing.remove_record(&key);
                    },
                    Ok(CommitAction::Store { payload, rc }) => {
                        self.backing.put_record(&key, payload.as_slice(), rc);
                    },
                }
                ret = ret + 1;
                proof {
                    assert(self.backing@.get(k) == s0.commit_slot(k));
                    assert(touched_from(ps, n - 1) =~= touched_from(ps, n).insert(k)) by {
                        assert forall|x: Seq<u8>| touched_from(ps, n - 1).contains(x) implies (
                        touched_from(ps, n).insert(k)).contains(x) by {
                            let j = choose|j: int|
                                n - 1 <= j && holds_at(ps, x, j) && ps[j].1.delta != 0;
                            if j != n - 1 {
                                assert(n <= j && holds_at(ps, x, j) && ps[j].1.delta != 0);
                            }
                        }
                        assert forall|x: Seq<u8>|
                            (touched_from(ps, n).insert(k)).contains(x) implies touched_from(
                            ps,
                            n - 1,
                        ).contains(x) by {
                            if x == k {
                                assert(n - 1 <= n - 1 && holds_at(ps, x, n - 1) && ps[n - 1].1.delta
                                    != 0);
                            } else {
                                let j = choose|j: int|
                                    n <= j && holds_at(ps, x, j) && ps[j].1.delta != 0;
                                assert(n - 1 <= j && holds_at(ps, x, j) && ps[j].1.delta != 0);
                            }
                        }
                    }
                    assert(!touched_from(ps, n).contains(k)) by {
                        if touched_from(ps, n).contains(k) {
                            let j = choose|j: int|
                                n <= j && holds_at(ps, k, j) && ps[j].1.delta != 0;
                            assert(n <= j && holds_at(ps, k, j));
                        }
                    }
                }
            } else {
                proof {
                    assert(!s0.touched().contains(k));
                    assert(touched_from(ps, n - 1) =~= touched_from(ps, n)) by {
                        assert forall|x: Seq<u8>| touched_from(ps, n - 1).contains(
                            x,
                        ) implies touched_from(ps, n).contains(x) by {
                            let j = choose|j: int|
                                n - 1 <= j && holds_at(ps, x, j) && ps[j].1.delta != 0;
                            assert(n <= j && holds_at(ps, x, j) && ps[j].1.delta != 0);
                        }
                        assert forall|x: Seq<u8>| touched_from(ps, n).contains(
                            x,
                        ) implies touched_from(ps, n - 1).contains(x) by {
                            let j = choose|j: int|
                                n <= j && holds_at(ps, x, j) && ps[j].1.delta != 0;
                            assert(n - 1 <= j && holds_at(ps, x, j) && ps[j].1.delta != 0);
                        }
                    }
                }
            }
            proof {
                assert forall|x: Seq<u8>|
                    self.backing@.get(x) == if #[trigger] among(ps, x, n - 1) {
                        s0.commit_slot(x)
                    } else {
                        s0.backing.get(x)
                    } by {
                    if x == k {
                        assert(n - 1 <= n - 1 && holds_at(ps, x, n - 1));
                    } else {
                        assert(self.backing@.get(x) == before.get(x));
                        if among(ps, x, n - 1) {
                            let j = choose|j: int| n - 1 <= j && holds_at(ps, x, j);
                            assert(n <= j && holds_at(ps, x, j));
                        }
                        if among(ps, x, n) {
                            let j = choose|j: int| n <= j && holds_at(ps, x, j);
                            assert(n - 1 <= j && holds_at(ps, x, j));
                        }
                    }
                }
            }
        }
        proof {
            assert forall|x: Seq<u8>| among(ps, x, 0) <==> s0.overlay.contains_key(x) by {
                if among(ps, x, 0) {
                    let j = choose|j: int| 0 <= j && holds_at(ps, x, j);
                    lemma_binding(ps, j);
                }
                if s0.overlay.contains_key(x) {
                    let j = lemma_bound_occurs(ps, x);
                    assert(0 <= j && holds_at(ps, x, j));
                }
            }
            assert forall|x: Seq<u8>| #[trigger] s0.touched().contains(x) implies s0.effective_rc(x)
                >= 0 by {
                let j = lemma_bound_occurs(ps, x);
                assert(ps[j].1.delta != 0);
            }
            assert(touched_from(ps, 0) =~= s0.touched()) by {
                assert forall|x: Seq<u8>| touched_from(ps, 0).contains(x) implies s0.touched().contains(
                    x,
                ) by {
                    let j = choose|j: int| 0 <= j && holds_at(ps, x, j) && ps[j].1.delta != 0;
                    lemma_binding(ps, j);
                }
                assert forall|x: Seq<u8>| s0.touched().contains(x) implies touched_from(
                    ps,
                    0,
                ).contains(x) by {
                    let j = lemma_bound_occurs(ps, x);
                    assert(0 <= j && holds_at(ps, x, j) && ps[j].1.delta != 0);
                }
            }
            assert forall|x: Seq<u8>| self.backing@.get(x) == s0.commit_slot(x) by {
                if among(ps, x, 0) {
                }
            }
            assert(self.backing@ =~= s0.committed_backing());
        }
        Ok(ret)
    }

    /// Drops everything staged since the last commit. The store is not
    /// touched.
    pub fn revert(&mut self)
        requires
            old(self).wf(),
        ensures
            final(self).wf(),
            final(self)@ == old(self)@.reverted(),
    {
        self.overlay.clear();
    }

    /// Whether `key` is live: whether a lookup of it would yield a payload.
    /// Nothing changes.
    pub fn contains(&self, key: &H256) -> (live: bool)
        requires
            self.wf(),
        ensures
            live == self@.live(key@),
            live == (self@.effective_rc(key@) > 0),
    {
        proof {
            self.lemma_wf();
        }
        let memrc: i32 = match self.overlay.raw(key) {
            Some(e) => e.rc,
            None => 0,
        };
        if memrc > 0 {
            return true;
        }
        match self.backing.get_record(key) {
            Some((_, rc)) => rc as i64 + memrc as i64 > 0,
            None => false,
        }
    }

    /// The payload of `key`, if `key` is live: the staged payload where the
    /// staged delta is positive, else the stored payload where the effective
    /// count is positive. The payload is handed out as a copy of its own. A
    /// payload read from the store is noted in the overlay; no count changes.
    pub fn lookup(&mut self, key: &H256) -> (r: Option<Vec<u8>>)
        requires
            old(self).wf(),
        ensures
            final(self).wf(),
            final(self)@ == old(self)@.looked_up(key@),
            match r {
                Some(v) => old(self)@.lookup_value(key@) == Some(v@),
                None => old(self)@.lookup_value(key@) is None,
            },
    {
        proof {
            self.backing.lemma_wf();
        }
        let mut memrc: i32 = 0;
        match self.overlay.raw(key) {
            Some(e) => {
                if e.rc > 0 {
                    return Some(slice_to_vec(e.value.as_slice()));
                }
                memrc = e.rc;
            },
            None => {},
        }
        match self.backing.get_record(key) {
            Some((payload, rc)) => {
                if rc as i64 + memrc as i64 > 0 {
                    let out = slice_to_vec(payload.as_slice());
                    self.overlay.denote(key, payload);
                    Some(out)
                } else {
                    None
                }
            },
            None => None,
        }
    }

    /// The effective count of every digest that is stored or staged, each
    /// digest once. Counts may be zero or negative here.
    pub fn keys(&self) -> (out: Vec<(H256, i64)>)
        requires
            self.wf(),
        ensures
            distinct_keys(total_pairs(out@)),
            as_map(total_pairs(out@)) == self@.refcounts(),
    {
        let stored = self.backing.iter_all();
        let ghost sp = rc_pairs(stored@);
        let mut out: Vec<(H256, i64)> = Vec::new();
        let mut i: usize = 0;
        while i < stored.len()
            invariant
                i <= stored@.len(),
                out@.len() == i,
                forall|j: int|
                    0 <= j < i ==> (#[trigger] out@[j]).0@ == stored@[j].0@ && out@[j].1
                        == stored@[j].1,
            decreases stored@.len() - i,
        {
            out.push((stored[i].0, stored[i].1 as i64));
            i += 1;
        }
        assert(total_pairs(out@) =~= sp);
        let deltas = self.overlay.keys();
        let ghost dp = count_pairs(deltas@);
        let ghost s = self@;
        proof {
            self.lemma_wf();
            let n = deltas@.len() as int;
            assert forall|k: Seq<u8>| !among(dp, k, n) by {
                if among(dp, k, n) {
                    let x = choose|x: int| n <= x && holds_at(dp, k, x);
                    assert(holds_at(dp, k, x));
                }
            }
            assert(as_map(total_pairs(out@)) =~= Map::new(
                |k: Seq<u8>| s.backing.contains_key(k) || among(dp, k, n),
                |k: Seq<u8>| s.rc(k) + (if among(dp, k, n) { s.delta(k) } else { 0 }),
            ));
        }
        let mut j: usize = deltas.len();
        while j > 0
            invariant
                j <= deltas@.len(),
                s == self@,
                s.wf(),
                dp == count_pairs(deltas@),
                distinct_keys(dp),
                as_map(dp) == s.overlay.map_values(|e: Staged| e.delta),
                distinct_keys(total_pairs(out@)),
                as_map(total_pairs(out@)) == Map::new(
                    |k: Seq<u8>| s.backing.contains_key(k) || among(dp, k, j as int),
                    |k: Seq<u8>| s.rc(k) + (if among(dp, k, j as int) { s.delta(k) } else { 0 }),
                ),
            decreases j,
        {
            j -= 1;
            let key = deltas[j].0;
            let delta = deltas[j].1;
            let ghost tp = total_pairs(out@);
            let ghost before = as_map(tp);
            proof {
                lemma_binding(dp, j as int);
                assert(dp[j as int] == (key@, delta as int));
                assert(s.overlay.contains_key(key@) && s.overlay[key@].delta == delta);
                assert(!among(dp, key@, j + 1)) by {
                    if among(dp, key@, j + 1) {
                        let x = choose|x: int| j + 1 <= x && holds_at(dp, key@, x);
                        assert(dp[j as int].0 != dp[x].0);
                    }
                }
                assert(holds_at(dp, key@, j as int));
            }
            match position_of(&out, &key) {
                Some(p) => {
                    proof {
                        lemma_binding(tp, p as int);
                        assert(tp[p as int] == (out@[p as int].0@, out@[p as int].1 as int));
                        assert(before.contains_key(key@));
                    }
                    let sum: i64 = out[p].1 + delta as i64;
                    out[p].1 = sum;
                    proof {
                        assert(total_pairs(out@) =~= tp.update(p as int, (tp[p as int].0, sum as int)));
                        lemma_replace(tp, p as int, sum as int);
                    }
                },
                None => {
                    proof {
                        assert forall|x: int| 0 <= x < tp.len() implies (#[trigger] tp[x]).0
                            != key@ by {
                            assert(tp[x].0 == out@[x].0@);
                        }
                        lemma_unbound(tp, key@);
                    }
                    out.push((key, delta as i64));
                    proof {
                        assert(total_pairs(out@) =~= tp.push((key@, delta as int)));
                        lemma_push_fresh(tp, key@, delta as int);
                    }
                },
            }
            proof {
                assert forall|k: Seq<u8>| among(dp, k, j as int) <==> (k == key@ || among(
                    dp,
                    k,
                    j + 1,
                )) by {
                    if among(dp, k, j as int) {
                        let x = choose|x: int| j <= x && holds_at(dp, k, x);
                        if x != j {
                            assert(j + 1 <= x && holds_at(dp, k, x));
                        }
                    }
                    if among(dp, k, j + 1) {
                        let x = choose|x: int| j + 1 <= x && holds_at(dp, k, x);
                        assert(j <= x && holds_at(dp, k, x));
                    }
                }
                assert(as_map(total_pairs(out@)) =~= Map::new(
                    |k: Seq<u8>| s.backing.contains_key(k) || among(dp, k, j as int),
                    |k: Seq<u8>| s.rc(k) + (if among(dp, k, j as int) { s.delta(k) } else { 0 }),
                ));
            }
        }
        proof {
            assert forall|k: Seq<u8>| among(dp, k, 0) <==> s.overlay.contains_key(k) by {
                if among(dp, k, 0) {
                    let x = choose|x: int| 0 <= x && holds_at(dp, k, x);
                    lemma_binding(dp, x);
                }
                if s.overlay.contains_key(k) {
                    assert(as_map(dp).contains_key(k));
                    let x = lemma_bound_occurs(dp, k);
                    assert(0 <= x && holds_at(dp, k, x));
                }
            }
            assert(as_map(total_pairs(out@)) =~= s.refcounts());
        }
        out
    }
}

} // verus!

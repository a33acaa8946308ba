//! The mathematical model of the database: what is staged, what is stored,
//! and what each operation makes of the two.

use crate::codec::MAX_PAYLOAD_LEN;
use crate::hash::keccak256;
use vstd::prelude::*;

verus! {

/// A staged entry: a payload and the net change of the reference count that
/// the next commit applies. The payload is empty where only kills were staged.
pub struct Staged {
    pub payload: Seq<u8>,
    pub delta: int,
}

/// A stored record: a payload and its reference count.
pub struct Record {
    pub payload: Seq<u8>,
    pub rc: int,
}

/// The staged change of `k`'s reference count; zero where nothing is staged.
pub open spec fn delta_of(overlay: Map<Seq<u8>, Staged>, k: Seq<u8>) -> int {
    if overlay.contains_key(k) {
        overlay[k].delta
    } else {
        0
    }
}

/// The stored reference count of `k`; zero where no record is stored.
pub open spec fn rc_of(backing: Map<Seq<u8>, Record>, k: Seq<u8>) -> int {
    if backing.contains_key(k) {
        backing[k].rc
    } else {
        0
    }
}

/// The overlay after one more reference to `payload` is staged under `k`:
/// the delta goes up by one, and the payload fills an entry that had none.
pub open spec fn stage_insert(overlay: Map<Seq<u8>, Staged>, k: Seq<u8>, payload: Seq<u8>) -> Map<
    Seq<u8>,
    Staged,
> {
    if overlay.contains_key(k) {
        overlay.insert(
            k,
            Staged {
                payload: if overlay[k].payload.len() == 0 {
                    payload
                } else {
                    overlay[k].payload
                },
                delta: overlay[k].delta + 1,
            },
        )
    } else {
        overlay.insert(k, Staged { payload, delta: 1 })
    }
}

/// The overlay after one reference to `k` is dropped: the delta goes down by
/// one; a key that was not staged gets an entry without payload.
pub open spec fn stage_kill(overlay: Map<Seq<u8>, Staged>, k: Seq<u8>) -> Map<Seq<u8>, Staged> {
    if overlay.contains_key(k) {
        overlay.insert(k, Staged { payload: overlay[k].payload, delta: overlay[k].delta - 1 })
    } else {
        overlay.insert(k, Staged { payload: Seq::empty(), delta: -1 })
    }
}

/// The overlay after a stored payload is noted under `k`: a key that was not
/// staged gets the payload at delta zero, an entry without payload gets the
/// payload, and no delta changes.
pub open spec fn stage_denote(overlay: Map<Seq<u8>, Staged>, k: Seq<u8>, payload: Seq<u8>) -> Map<
    Seq<u8>,
    Staged,
> {
    if !overlay.contains_key(k) {
        overlay.insert(k, Staged { payload, delta: 0 })
    } else if overlay[k].payload.len() == 0 {
        overlay.insert(k, Staged { payload, delta: overlay[k].delta })
    } else {
        overlay
    }
}

/// The database as a pair of maps keyed by digest.
pub struct DbView {
    /// What is staged since the last commit or revert.
    pub overlay: Map<Seq<u8>, Staged>,
    /// What is stored.
    pub backing: Map<Seq<u8>, Record>,
}

impl DbView {
    /// Every stored count is a positive 32-bit number, every staged delta a
    /// signed 32-bit number, no payload is longer than a record can carry,
    /// and only finitely many keys are staged.
    pub open spec fn wf(self) -> bool {
        &&& forall|k: Seq<u8>| #[trigger]
            self.backing.contains_key(k) ==> 0 < self.backing[k].rc <= u32::MAX
                && self.backing[k].payload.len() <= MAX_PAYLOAD_LEN
        &&& forall|k: Seq<u8>| #[trigger]
            self.overlay.contains_key(k) ==> i32::MIN <= self.overlay[k].delta <= i32::MAX
                && self.overlay[k].payload.len() <= MAX_PAYLOAD_LEN
        &&& self.overlay.dom().finite()
    }

    /// The staged change of `k`'s count.
    pub open spec fn delta(self, k: Seq<u8>) -> int {
        delta_of(self.overlay, k)
    }

    /// The stored count of `k`.
    pub open spec fn rc(self, k: Seq<u8>) -> int {
        rc_of(self.backing, k)
    }

    /// The count that `k` would have after a commit: stored plus staged.
    pub open spec fn effective_rc(self, k: Seq<u8>) -> int {
        self.rc(k) + self.delta(k)
    }

    /// What a lookup of `k` yields: the staged payload where the staged delta
    /// is positive, else the stored payload where the effective count is
    /// positive, else nothing.
    pub open spec fn lookup_value(self, k: Seq<u8>) -> Option<Seq<u8>> {
        if self.overlay.contains_key(k) && self.overlay[k].delta > 0 {
            Some(self.overlay[k].payload)
        } else if self.backing.contains_key(k) && self.effective_rc(k) > 0 {
            Some(self.backing[k].payload)
        } else {
            None
        }
    }

    /// Whether a lookup of `k` yields a payload.
    pub open spec fn live(self, k: Seq<u8>) -> bool {
        self.lookup_value(k) is Some
    }

    /// The database after a lookup of `k`: a payload read from the backing
    /// store is noted in the overlay.
    pub open spec fn looked_up(self, k: Seq<u8>) -> DbView {
        if self.overlay.contains_key(k) && self.overlay[k].delta > 0 {
            self
        } else if self.backing.contains_key(k) && self.effective_rc(k) > 0 {
            DbView {
                overlay: stage_denote(self.overlay, k, self.backing[k].payload),
                backing: self.backing,
            }
        } else {
            self
        }
    }

    /// The database after `payload` is staged under the digest `k`.
    pub open spec fn emplaced(self, k: Seq<u8>, payload: Seq<u8>) -> DbView {
        DbView { overlay: stage_insert(self.overlay, k, payload), backing: self.backing }
    }

    /// The database after `payload` is staged under its own digest.
    pub open spec fn inserted(self, payload: Seq<u8>) -> DbView {
        self.emplaced(keccak256(payload), payload)
    }

    /// The database after a kill of `k` is staged.
    pub open spec fn killed(self, k: Seq<u8>) -> DbView {
        DbView { overlay: stage_kill(self.overlay, k), backing: self.backing }
    }

    /// The database after a revert: nothing staged, the store as it was.
    pub open spec fn reverted(self) -> DbView {
        DbView { overlay: Map::empty(), backing: self.backing }
    }

    /// The effective count of every key that is stored or staged. A count
    /// here may be zero or negative: only a commit rules that out.
    pub open spec fn refcounts(self) -> Map<Seq<u8>, int> {
        Map::new(
            |k: Seq<u8>| self.backing.contains_key(k) || self.overlay.contains_key(k),
            |k: Seq<u8>| self.effective_rc(k),
        )
    }

    /// The keys that a commit touches: those staged with a nonzero delta.
    pub open spec fn touched(self) -> Set<Seq<u8>> {
        Set::new(|k: Seq<u8>| self.overlay.contains_key(k) && self.overlay[k].delta != 0)
    }

    /// Whether a commit succeeds: no touched key would end below zero.
    pub open spec fn commit_ok(self) -> bool {
        forall|k: Seq<u8>| #[trigger] self.touched().contains(k) ==> self.effective_rc(k) >= 0
    }

    /// What a commit leaves under `k`.
    ///
    /// An untouched key keeps what it has. A touched key with a stored record
    /// keeps the stored payload at the effective count, and loses the record
    /// where that count is not positive. A touched key without a record gets
    /// the staged payload at the staged delta, where that is positive.
    pub open spec fn commit_slot(self, k: Seq<u8>) -> Option<Record> {
        if !self.touched().contains(k) {
            self.backing.get(k)
        } else if self.backing.contains_key(k) {
            if self.effective_rc(k) > 0 {
                Some(Record { payload: self.backing[k].payload, rc: self.effective_rc(k) })
            } else {
                None
            }
        } else if self.overlay[k].delta > 0 {
            Some(Record { payload: self.overlay[k].payload, rc: self.overlay[k].delta })
        } else {
            None
        }
    }

    /// The store after a successful commit.
    pub open spec fn committed_backing(self) -> Map<Seq<u8>, Record> {
        Map::new(|k: Seq<u8>| self.commit_slot(k) is Some, |k: Seq<u8>| self.commit_slot(k)->0)
    }

    /// The database after a successful commit.
    pub open spec fn committed(self) -> DbView {
        DbView { overlay: Map::empty(), backing: self.committed_backing() }
    }

    /// The machine limits of a commit: every effective count of a touched key
    /// fits in 32 bits, and so does the number of staged keys.
    pub open spec fn commit_fits(self) -> bool {
        &&& forall|k: Seq<u8>| #[trigger] self.touched().contains(k) ==> self.effective_rc(k) <= u32::MAX
        &&& self.overlay.dom().len() <= u32::MAX
    }
}

} // verus!

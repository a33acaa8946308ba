//! What holds of the database whatever its state: the laws that relate
//! staging, lookup, commit and revert, stated over the model that the
//! contracts of `OverlayDB` speak of.

use crate::hash::keccak256;
use crate::model::{rc_of, DbView, Staged};
use vstd::prelude::*;

verus! {

/// One staged operation, or a lookup, as the model sees it.
pub enum Mutation {
    /// `insert` of a payload.
    Insert(Seq<u8>),
    /// `emplace` of a payload under a digest.
    Emplace(Seq<u8>, Seq<u8>),
    /// `kill` of a digest.
    Kill(Seq<u8>),
    /// `lookup` of a digest, which may note a stored payload in the overlay.
    Lookup(Seq<u8>),
}

/// The database after one mutation.
pub open spec fn apply(s: DbView, m: Mutation) -> DbView {
    match m {
        Mutation::Insert(payload) => s.inserted(payload),
        Mutation::Emplace(k, payload) => s.emplaced(k, payload),
        Mutation::Kill(k) => s.killed(k),
        Mutation::Lookup(k) => s.looked_up(k),
    }
}

/// The database after a sequence of mutations, first to last.
pub open spec fn apply_all(s: DbView, ms: Seq<Mutation>) -> DbView
    decreases ms.len(),
{
    if ms.len() == 0 {
        s
    } else {
        apply(apply_all(s, ms.drop_last()), ms.last())
    }
}

/// What one mutation adds to the references of `k`: one for an insertion
/// under `k`, minus one for a kill of `k`, nothing otherwise.
pub open spec fn weight(m: Mutation, k: Seq<u8>) -> int {
    match m {
        Mutation::Insert(payload) => if keccak256(payload) == k {
            1
        } else {
            0
        },
        Mutation::Emplace(h, _) => if h == k {
            1
        } else {
            0
        },
        Mutation::Kill(h) => if h == k {
            -1
        } else {
            0
        },
        Mutation::Lookup(_) => 0,
    }
}

/// Insertions under `k` minus kills of `k`, over a sequence of mutations.
pub open spec fn net_references(ms: Seq<Mutation>, k: Seq<u8>) -> int
    decreases ms.len(),
{
    if ms.len() == 0 {
        0
    } else {
        net_references(ms.drop_last(), k) + weight(ms.last(), k)
    }
}

/// No mutation touches the store, and each changes the staged delta of a
/// digest by its weight.
pub proof fn law_staging(s: DbView, ms: Seq<Mutation>, k: Seq<u8>)
    ensures
        apply_all(s, ms).backing == s.backing,
        apply_all(s, ms).delta(k) == s.delta(k) + net_references(ms, k),
    decreases ms.len(),
{
    if ms.len() > 0 {
        law_staging(s, ms.drop_last(), k);
    }
}

/// A digest is live exactly where its effective count is positive.
pub proof fn law_live_is_positive_count(s: DbView, k: Seq<u8>)
    requires
        s.wf(),
    ensures
        s.live(k) == (s.effective_rc(k) > 0),
{
}

/// Round trip: a payload that is inserted and committed is what a lookup of
/// its digest yields.
///
/// This holds where the commit succeeds, where the digest was not killed more
/// often than it was referenced before the insertion, and where nothing else
/// is held under the digest: the overlay and the store trust whoever placed a
/// payload under a digest, and keep the payload they have.
pub proof fn law_round_trip(s: DbView, payload: Seq<u8>)
    requires
        s.wf(),
        s.inserted(payload).commit_ok(),
        s.effective_rc(keccak256(payload)) >= 0,
        s.backing.contains_key(keccak256(payload)) ==> s.backing[keccak256(payload)].payload
            == payload,
        s.overlay.contains_key(keccak256(payload)) ==> s.overlay[keccak256(payload)].payload
            == payload || s.overlay[keccak256(payload)].payload.len() == 0,
    ensures
        s.inserted(payload).committed().lookup_value(keccak256(payload)) == Some(payload),
{
    let h = keccak256(payload);
    let t = s.inserted(payload);
    assert(t.overlay.contains_key(h));
    if t.overlay[h].delta != 0 {
        assert(t.touched().contains(h));
    }
    assert(t.commit_slot(h) is Some);
    assert(t.committed().backing.contains_key(h));
}

/// Revert: whatever was staged or looked up since a commit, a revert brings
/// the database back to the state the commit left, so every lookup and every
/// liveness test answers as it did then.
pub proof fn law_revert_restores(s: DbView, ms: Seq<Mutation>, k: Seq<u8>)
    requires
        s.overlay == Map::<Seq<u8>, Staged>::empty(),
    ensures
        apply_all(s, ms).reverted() == s,
        apply_all(s, ms).reverted().lookup_value(k) == s.lookup_value(k),
        apply_all(s, ms).reverted().live(k) == s.live(k),
{
    law_staging(s, ms, k);
}

/// A second revert changes nothing.
pub proof fn law_revert_idempotent(s: DbView)
    ensures
        s.reverted().reverted() == s.reverted(),
{
}

/// Conservation at commit: a successful commit leaves every digest with its
/// effective count, and a record exactly where that count is positive.
pub proof fn law_commit_sets_effective(s: DbView, k: Seq<u8>)
    requires
        s.wf(),
        s.commit_ok(),
    ensures
        rc_of(s.committed_backing(), k) == s.effective_rc(k),
        s.committed_backing().contains_key(k) == (s.effective_rc(k) > 0),
{
    if s.touched().contains(k) {
        assert(s.effective_rc(k) >= 0);
    }
}

/// Conservation over a generation: after the mutations `ms` on a freshly
/// committed database and a successful commit, the stored count of every
/// digest is the count it had plus its insertions minus its kills.
pub proof fn law_refcount_conservation(s: DbView, ms: Seq<Mutation>, k: Seq<u8>)
    requires
        s.wf(),
        s.overlay == Map::<Seq<u8>, Staged>::empty(),
        apply_all(s, ms).wf(),
        apply_all(s, ms).commit_ok(),
    ensures
        rc_of(apply_all(s, ms).committed().backing, k) == s.rc(k) + net_references(ms, k),
{
    law_staging(s, ms, k);
    law_commit_sets_effective(apply_all(s, ms), k);
}

/// Zero collapse: a digest whose count a commit brings to exactly zero has no
/// record afterwards.
pub proof fn law_zero_collapse(s: DbView, k: Seq<u8>)
    requires
        s.touched().contains(k),
        s.effective_rc(k) == 0,
    ensures
        s.commit_slot(k) is None,
        !s.committed().backing.contains_key(k),
{
}

/// A successful commit keeps the store well formed: every record it leaves
/// has a positive count.
pub proof fn law_commit_keeps_wf(s: DbView)
    requires
        s.wf(),
        s.commit_ok(),
        s.commit_fits(),
    ensures
        s.committed().wf(),
{
    let c = s.committed();
    assert forall|k: Seq<u8>| #[trigger] c.backing.contains_key(k) implies 0 < c.backing[k].rc
        <= u32::MAX && c.backing[k].payload.len() <= crate::codec::MAX_PAYLOAD_LEN by {
        if s.touched().contains(k) {
            assert(s.effective_rc(k) <= u32::MAX);
        } else {
            assert(s.backing.contains_key(k));
        }
    }
    assert(c.overlay.dom() =~= Set::<Seq<u8>>::empty());
}

/// Negative detection: a commit is refused exactly where some touched digest
/// would end below zero.
pub proof fn law_negative_detection(s: DbView)
    ensures
        !s.commit_ok() <==> exists|k: Seq<u8>| #[trigger]
            s.touched().contains(k) && s.effective_rc(k) < 0,
{
}

/// Overlay shadowing: liveness follows what is staged. After a kill a digest
/// is live exactly where its effective count was above one, so a kill that
/// brings the count to zero hides a record that the store still holds.
pub proof fn law_kill_shadows(s: DbView, k: Seq<u8>)
    requires
        s.wf(),
        s.delta(k) > i32::MIN,
    ensures
        s.killed(k).backing == s.backing,
        s.killed(k).effective_rc(k) == s.effective_rc(k) - 1,
        s.killed(k).live(k) == (s.effective_rc(k) > 1),
        s.effective_rc(k) == 1 ==> !s.killed(k).live(k),
{
}

} // verus!

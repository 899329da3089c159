//! The transfer protocol: the clone/fetch session as a pure state
//! machine, and the decision steps it composes.
//!
//! A session moves Advertising -> Negotiating -> Transferring ->
//! Finalizing -> Done, with Failed reachable from every live state.
//! The machine itself does no I/O: a driver performs each returned
//! action against the transport and hands the resulting event back.
//! An empty advertisement is a valid terminal advertisement: the
//! session moves straight toward Finalizing with zero objects and the
//! local HEAD stays unborn.  A failed session keeps its first error.

use vstd::prelude::*;
use crate::oid::Oid;
use crate::store::ObjectStore;
use crate::refs::{RefStore, RefTargetV, Head, HeadV};
use crate::errors::GitError;

verus! {

/// The states of a transfer session.
#[derive(Clone, Copy, PartialEq, Eq, Structural, Debug)]
pub enum SessionState {
    /// Waiting for the remote's reference advertisement.
    Advertising,
    /// Exchanging wants and haves.
    Negotiating,
    /// Receiving and ingesting the pack stream.
    Transferring,
    /// Applying reference updates.
    Finalizing,
    /// The session completed.
    Done,
    /// The session failed; the first error is kept.
    Failed { error: GitError },
}

/// The events a driver reports back to the session.
#[derive(Clone, Copy, PartialEq, Eq, Structural, Debug)]
pub enum SessionEvent {
    /// The remote advertised `ref_count` references.
    Advertisement { ref_count: u32 },
    /// Negotiation ended: all haves acknowledged, or the bounded
    /// rounds ran out with nothing in common.
    NegotiationSettled,
    /// The pack stream was ingested cleanly.
    PackIngested,
    /// The pack stream failed a checksum or size check.
    PackCorrupt,
    /// Every reference update was applied.
    RefsApplied,
    /// A reference update lost its compare-and-swap.
    RefsConflicted,
    /// The transport failed or timed out.
    TransportError,
}

/// What the driver must do next.
#[derive(Clone, Copy, PartialEq, Eq, Structural, Debug)]
pub enum SessionAction {
    /// Compute and send the wants, then negotiate.
    SendWants,
    /// Receive the pack stream and ingest it.
    ReceivePack,
    /// Apply the reference updates of finalization.
    ApplyRefUpdates,
    /// Empty remote: finalize with zero objects, HEAD stays unborn.
    FinishEmpty,
    /// Nothing is left to do.
    Complete,
    /// Roll back whatever this session alone created.
    Abort,
}

/// The complete transition table of a session.  Terminal states
/// absorb every event; an event that does not belong to the current
/// state is a protocol violation and fails the session.
pub open spec fn spec_session_step(state: SessionState, event: SessionEvent)
    -> (SessionState, SessionAction)
{
    match state {
        SessionState::Done => (SessionState::Done, SessionAction::Complete),
        SessionState::Failed { error } => (SessionState::Failed { error }, SessionAction::Abort),
        _ => match event {
            SessionEvent::TransportError => (
                SessionState::Failed { error: GitError::TransferFailed },
                SessionAction::Abort,
            ),
            SessionEvent::Advertisement { ref_count } => if state == SessionState::Advertising {
                if ref_count == 0 {
                    (SessionState::Finalizing, SessionAction::FinishEmpty)
                } else {
                    (SessionState::Negotiating, SessionAction::SendWants)
                }
            } else {
                (SessionState::Failed { error: GitError::TransferFailed }, SessionAction::Abort)
            },
            SessionEvent::NegotiationSettled => if state == SessionState::Negotiating {
                (SessionState::Transferring, SessionAction::ReceivePack)
            } else {
                (SessionState::Failed { error: GitError::TransferFailed }, SessionAction::Abort)
            },
            SessionEvent::PackIngested => if state == SessionState::Transferring {
                (SessionState::Finalizing, SessionAction::ApplyRefUpdates)
            } else {
                (SessionState::Failed { error: GitError::TransferFailed }, SessionAction::Abort)
            },
            SessionEvent::PackCorrupt => if state == SessionState::Transferring {
                (SessionState::Failed { error: GitError::CorruptPack }, SessionAction::Abort)
            } else {
                (SessionState::Failed { error: GitError::TransferFailed }, SessionAction::Abort)
            },
            SessionEvent::RefsApplied => if state == SessionState::Finalizing {
                (SessionState::Done, SessionAction::Complete)
            } else {
                (SessionState::Failed { error: GitError::TransferFailed }, SessionAction::Abort)
            },
            SessionEvent::RefsConflicted => if state == SessionState::Finalizing {
                (SessionState::Failed { error: GitError::RefConflict }, SessionAction::Abort)
            } else {
                (SessionState::Failed { error: GitError::TransferFailed }, SessionAction::Abort)
            },
        },
    }
}

/// Advances a session by one event.
pub fn session_step(state: SessionState, event: SessionEvent) -> (r: (SessionState, SessionAction))
    ensures
        r == spec_session_step(state, event),
        state == SessionState::Advertising
            && event == (SessionEvent::Advertisement { ref_count: 0u32 })
            ==> r.0 == SessionState::Finalizing && r.1 == SessionAction::FinishEmpty,
        !(state is Done) && !(state is Failed) && event == SessionEvent::TransportError
            ==> r.0 == (SessionState::Failed { error: GitError::TransferFailed })
                && r.1 == SessionAction::Abort,
        state == SessionState::Transferring && event == SessionEvent::PackCorrupt
            ==> r.0 == (SessionState::Failed { error: GitError::CorruptPack })
                && r.1 == SessionAction::Abort,
        (state is Done) || (state is Failed) ==> r.0 == state,
{
    match state {
        SessionState::Done => (SessionState::Done, SessionAction::Complete),
        SessionState::Failed { error } => (SessionState::Failed { error }, SessionAction::Abort),
        _ => match event {
            SessionEvent::TransportError => (
                SessionState::Failed { error: GitError::TransferFailed },
                SessionAction::Abort,
            ),
            SessionEvent::Advertisement { ref_count } => if state == SessionState::Advertising {
                if ref_count == 0 {
                    (SessionState::Finalizing, SessionAction::FinishEmpty)
                } else {
                    (SessionState::Negotiating, SessionAction::SendWants)
                }
            } else {
                (SessionState::Failed { error: GitError::TransferFailed }, SessionAction::Abort)
            },
            SessionEvent::NegotiationSettled => if state == SessionState::Negotiating {
                (SessionState::Transferring, SessionAction::ReceivePack)
            } else {
                (SessionState::Failed { error: GitError::TransferFailed }, SessionAction::Abort)
            },
            SessionEvent::PackIngested => if state == SessionState::Transferring {
                (SessionState::Finalizing, SessionAction::ApplyRefUpdates)
            } else {
                (SessionState::Failed { error: GitError::TransferFailed }, SessionAction::Abort)
            },
            SessionEvent::PackCorrupt => if state == SessionState::Transferring {
                (SessionState::Failed { error: GitError::CorruptPack }, SessionAction::Abort)
            } else {
                (SessionState::Failed { error: GitError::TransferFailed }, SessionAction::Abort)
            },
            SessionEvent::RefsApplied => if state == SessionState::Finalizing {
                (SessionState::Done, SessionAction::Complete)
            } else {
                (SessionState::Failed { error: GitError::TransferFailed }, SessionAction::Abort)
            },
            SessionEvent::RefsConflicted => if state == SessionState::Finalizing {
                (SessionState::Failed { error: GitError::RefConflict }, SessionAction::Abort)
            } else {
                (SessionState::Failed { error: GitError::TransferFailed }, SessionAction::Abort)
            },
        },
    }
}

/// The wants of a negotiation: every advertised tip the local store
/// does not already hold.
pub fn compute_wants(store: &ObjectStore, advertised: &Vec<(Vec<u8>, Oid)>) -> (r: Vec<Oid>)
    ensures
        forall|i: int| 0 <= i < r@.len() ==> !store@.contains_key(#[trigger] r@[i]),
        forall|j: int| 0 <= j < advertised@.len()
            && !store@.contains_key((#[trigger] advertised@[j]).1)
            ==> r@.contains(advertised@[j].1),
{
    let mut out: Vec<Oid> = Vec::new();
    let mut j: usize = 0;
    while j < advertised.len()
        invariant
            0 <= j <= advertised@.len(),
            forall|i: int| 0 <= i < out@.len() ==> !store@.contains_key(#[trigger] out@[i]),
            forall|k: int| 0 <= k < j && !store@.contains_key((#[trigger] advertised@[k]).1)
                ==> out@.contains(advertised@[k].1),
        decreases advertised@.len() - j,
    {
        if !store.contains(&advertised[j].1) {
            let ghost prev = out@;
            out.push(advertised[j].1);
            proof {
                assert(out@[out@.len() - 1] == advertised@[j as int].1);
                assert forall|k: int| 0 <= k < j + 1
                    && !store@.contains_key((#[trigger] advertised@[k]).1)
                    implies out@.contains(advertised@[k].1) by {
                    if k < j {
                        let i = choose|i: int| 0 <= i < prev.len()
                            && prev[i] == advertised@[k].1;
                        assert(out@[i] == advertised@[k].1);
                    }
                }
            }
        }
        j = j + 1;
    }
    out
}

/// The ghost view of an advertisement.
pub open spec fn adv_view(advertised: Seq<(Vec<u8>, Oid)>) -> Seq<(Seq<u8>, Oid)> {
    advertised.map_values(|p: (Vec<u8>, Oid)| (p.0@, p.1))
}

/// Finalization succeeds exactly when every advertised name is new
/// and the advertisement repeats no name.
pub open spec fn finalize_ok(m: Map<Seq<u8>, RefTargetV>, adv: Seq<(Seq<u8>, Oid)>) -> bool {
    &&& forall|j: int| 0 <= j < adv.len() ==> !m.contains_key((#[trigger] adv[j]).0)
    &&& forall|i: int, j: int| 0 <= i < j < adv.len()
        ==> (#[trigger] adv[i]).0 != (#[trigger] adv[j]).0
}

/// The reference map after creating every advertised pair in order.
pub open spec fn refs_after(m: Map<Seq<u8>, RefTargetV>, adv: Seq<(Seq<u8>, Oid)>)
    -> Map<Seq<u8>, RefTargetV>
    decreases adv.len(),
{
    if adv.len() == 0 {
        m
    } else {
        refs_after(m.insert(adv.first().0, RefTargetV::Direct(adv.first().1)), adv.skip(1))
    }
}

/// Applies the finalizing reference updates of a first clone: every
/// advertised pair is created with a compare-and-swap that expects
/// absence, then HEAD attaches to the remote default branch when one
/// was advertised (else it stays as it was, unborn on a fresh clone).
/// On a conflict nothing further is applied and HEAD is untouched;
/// each applied update remains, as individual updates are atomic but
/// the set is not a transaction.
pub fn finalize_clone(refs: &mut RefStore, advertised: &Vec<(Vec<u8>, Oid)>,
    default_branch: Option<Vec<u8>>) -> (r: Result<(), GitError>)
    requires
        old(refs).wf(),
    ensures
        final(refs).wf(),
        r is Ok <==> finalize_ok(old(refs)@.refs, adv_view(advertised@)),
        r is Ok ==> {
            &&& final(refs)@.refs == refs_after(old(refs)@.refs, adv_view(advertised@))
            &&& final(refs)@.head == match default_branch {
                Some(b) => HeadV::Attached { name: b@ },
                None => old(refs)@.head,
            }
        },
        r is Err ==> {
            &&& r == Err::<(), GitError>(GitError::RefConflict)
            &&& final(refs)@.head == old(refs)@.head
        },
{
    let ghost m0 = refs@.refs;
    let ghost adv = adv_view(advertised@);
    proof {
        assert(adv.skip(0) =~= adv);
    }
    let mut j: usize = 0;
    while j < advertised.len()
        invariant
            refs.wf(),
            0 <= j <= advertised@.len(),
            m0 == old(refs)@.refs,
            adv == adv_view(advertised@),
            adv.len() == advertised@.len(),
            forall|k: int| 0 <= k < advertised@.len()
                ==> #[trigger] adv[k] == (advertised@[k].0@, advertised@[k].1),
            refs@.head == old(refs)@.head,
            forall|k: int| 0 <= k < j ==> !m0.contains_key((#[trigger] adv[k]).0),
            forall|i: int, k: int| 0 <= i < k < j
                ==> (#[trigger] adv[i]).0 != (#[trigger] adv[k]).0,
            forall|n: Seq<u8>| #[trigger] refs@.refs.contains_key(n)
                <==> m0.contains_key(n) || exists|k: int| 0 <= k < j && (#[trigger] adv[k]).0 == n,
            refs_after(refs@.refs, adv.skip(j as int)) == refs_after(m0, adv),
        decreases advertised@.len() - j,
    {
        let ghost pre = refs@.refs;
        match refs.update(&advertised[j].0, None, advertised[j].1) {
            Ok(()) => {
                proof {
                    assert(!pre.contains_key(adv[j as int].0));
                    assert(adv.skip(j as int).first() == adv[j as int]);
                    assert(adv.skip(j as int).skip(1) =~= adv.skip(j + 1));
                    assert forall|n: Seq<u8>| #[trigger] refs@.refs.contains_key(n)
                        implies m0.contains_key(n)
                            || exists|k: int| 0 <= k < j + 1 && (#[trigger] adv[k]).0 == n by {
                        if n != adv[j as int].0 {
                            assert(pre.contains_key(n));
                        }
                    }
                }
            },
            Err(_) => {
                proof {
                    assert(refs@.refs.contains_key(adv[j as int].0));
                    if m0.contains_key(adv[j as int].0) {
                        assert(!finalize_ok(m0, adv));
                    } else {
                        let k = choose|k: int| 0 <= k < j && (#[trigger] adv[k]).0
                            == adv[j as int].0;
                        assert(!finalize_ok(m0, adv));
                    }
                }
                return Err(GitError::RefConflict);
            },
        }
        j = j + 1;
    }
    proof {
        assert(adv.skip(adv.len() as int) =~= Seq::<(Seq<u8>, Oid)>::empty());
    }
    match default_branch {
        Some(b) => {
            refs.set_head(Head::Attached { name: b });
        },
        None => {},
    }
    Ok(())
}

} // verus!

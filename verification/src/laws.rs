//! System-wide laws of the lock-coordination engine, stated over the same
//! spec functions the executable contracts use.
//!
//! Each session's contract preserves its own ownership invariant
//! ([`Session::consistent_with`]); the lemmas here show that the invariant
//! of every *other* session is preserved as well, and that the invariants
//! together force mutual exclusion.

use crate::notifier::enqueue;
use crate::server::Server;
use crate::session::consistent;
use crate::session::Session;
use vstd::prelude::*;

verus! {

/// Exclusivity over the raw model: two held-sets that are each consistent
/// with the same registry under different session identifiers are disjoint,
/// so no key is ever held by two distinct sessions simultaneously.
pub proof fn lemma_exclusivity(
    h1: Set<Seq<char>>,
    h2: Set<Seq<char>>,
    reg: Map<Seq<char>, usize>,
    id1: usize,
    id2: usize,
)
    requires
        consistent(h1, reg, id1),
        consistent(h2, reg, id2),
        id1 != id2,
    ensures
        forall|k: Seq<char>| h1.contains(k) ==> !h2.contains(k),
{
    assert forall|k: Seq<char>| h1.contains(k) implies !h2.contains(k) by {
        if h2.contains(k) {
            assert(reg[k] == id1);
            assert(reg[k] == id2);
        }
    }
}

/// Exclusivity for two live sessions: while both are consistent with the
/// server, no key stands in both held-sets.
pub proof fn lemma_session_exclusivity(s1: Session, s2: Session, srv: Server)
    requires
        s1.consistent_with(srv),
        s2.consistent_with(srv),
        s1.session_id() != s2.session_id(),
    ensures
        forall|k: Seq<char>| s1.held_set().contains(k) ==> !s2.held_set().contains(k),
{
    lemma_exclusivity(
        s1.held_set(),
        s2.held_set(),
        srv.holders(),
        s1.session_id(),
        s2.session_id(),
    );
}

/// A fresh acquisition by one session leaves every other session's
/// ownership invariant intact: inserting a free key under a different
/// identifier cannot disturb it.
pub proof fn lemma_acquire_preserves_others(
    h: Set<Seq<char>>,
    reg: Map<Seq<char>, usize>,
    other: usize,
    k: Seq<char>,
    winner: usize,
)
    requires
        consistent(h, reg, other),
        !reg.contains_key(k),
        winner != other,
    ensures
        consistent(h, reg.insert(k, winner), other),
{
}

/// A release of a key that a session does not hold leaves that session's
/// ownership invariant intact.
pub proof fn lemma_release_preserves_others(
    h: Set<Seq<char>>,
    reg: Map<Seq<char>, usize>,
    other: usize,
    k: Seq<char>,
)
    requires
        consistent(h, reg, other),
        !h.contains(k),
    ensures
        consistent(h, reg.remove(k), other),
{
}

/// A disconnecting session's wholesale release (its keys removed from the
/// registry together) leaves every other session's ownership invariant
/// intact, since none of the removed keys was the other session's.
pub proof fn lemma_teardown_preserves_others(
    h: Set<Seq<char>>,
    reg: Map<Seq<char>, usize>,
    other: usize,
    removed: Set<Seq<char>>,
)
    requires
        consistent(h, reg, other),
        forall|k: Seq<char>| removed.contains(k) ==> !h.contains(k),
    ensures
        consistent(h, reg.remove_keys(removed), other),
{
}

/// Leak-free disconnect: once a session's held keys are removed from the
/// registry, each of them is free, hence immediately acquirable by any
/// other session (`Registry::try_acquire` succeeds on a free key).
pub proof fn lemma_released_keys_acquirable(reg: Map<Seq<char>, usize>, held: Set<Seq<char>>)
    ensures
        forall|k: Seq<char>|
            held.contains(k) ==> !(#[trigger] reg.remove_keys(held).contains_key(k)),
{
}

/// Idempotent release: a successful release removes the key from the
/// held-set, so a second release of the same key by the same session must
/// report failure (`Session::release` returns whether the key was held).
pub proof fn lemma_idempotent_release(h: Set<Seq<char>>, k: Seq<char>)
    requires
        h.contains(k),
    ensures
        !h.remove(k).contains(k),
{
}

/// Wake correctness, the state part: a release of `k` leaves `k` absent
/// from the registry, so a blocked waiter's next retry acquires it; and the
/// release event is delivered as the newest pending event of every live
/// subscriber, whatever the queue held before (the drop policy discards
/// old events, never the new one).
pub proof fn lemma_release_wakes(
    reg: Map<Seq<char>, usize>,
    q: Seq<Seq<char>>,
    k: Seq<char>,
    cap: nat,
)
    requires
        cap >= 1,
    ensures
        !reg.remove(k).contains_key(k),
        enqueue(q, k, cap).len() >= 1,
        enqueue(q, k, cap).last() == k,
{
}

} // verus!

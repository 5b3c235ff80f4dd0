//! The state shared by every connection: the lock registry, the release
//! notifier, and the session-identifier allocator.
//!
//! Sessions mutate this state one linearizable operation at a time; the
//! transport layer is responsible for serializing concurrent access to it.

use crate::notifier::enqueue;
use crate::notifier::Notifier;
use crate::registry::Registry;
use vstd::prelude::*;

verus! {

/// Default bound on each subscriber's pending-event queue.
pub const QUEUE_CAPACITY: usize = 1000;

/// The shared server state.
pub struct Server {
    registry: Registry,
    notifier: Notifier,
    next_id: usize,
}

/// The notifier is observably untouched between two server states.
pub open spec fn events_unchanged(pre: Server, post: Server) -> bool {
    &&& post.queue_capacity() == pre.queue_capacity()
    &&& forall|sid: usize| post.subscribed(sid) <==> pre.subscribed(sid)
    &&& forall|sid: usize| pre.subscribed(sid) ==> post.queue_of(sid) == pre.queue_of(sid)
}

impl Server {
    /// The lock table: which session holds which key.
    pub closed spec fn holders(self) -> Map<Seq<char>, usize> {
        self.registry@
    }

    /// The identifier the allocator will issue next.
    pub closed spec fn next_session_id(self) -> usize {
        self.next_id
    }

    /// Whether session `sid` has an open notifier subscription.
    pub closed spec fn subscribed(self, sid: usize) -> bool {
        self.notifier.subscribed(sid)
    }

    /// The pending release events of subscriber `sid`, oldest first.
    pub closed spec fn queue_of(self, sid: usize) -> Seq<Seq<char>> {
        self.notifier.queue_of(sid)
    }

    /// The bound on each subscriber's pending-event queue.
    pub closed spec fn queue_capacity(self) -> nat {
        self.notifier.cap()
    }

    /// Structural invariant of the shared state.
    pub closed spec fn wf(self) -> bool {
        &&& self.registry.wf()
        &&& self.notifier.wf()
        &&& self.next_id >= 1
    }

    /// Issue the next session identifier: return the current counter value
    /// and advance it, wrapping back to 1 past the maximum (0 is reserved).
    pub fn generate_id(&mut self) -> (r: usize)
        requires
            old(self).wf(),
        ensures
            final(self).wf(),
            r == old(self).next_session_id(),
            r >= 1,
            final(self).next_session_id() == if old(self).next_session_id() == usize::MAX {
                1usize
            } else {
                (old(self).next_session_id() + 1) as usize
            },
            final(self).holders() == old(self).holders(),
            events_unchanged(*old(self), *final(self)),
    {
        let id = self.next_id;
        if self.next_id == usize::MAX {
            self.next_id = 1;
        } else {
            self.next_id = self.next_id + 1;
        }
        id
    }

    /// Atomically record session `conn` as the holder of `mutex`, failing
    /// without side effect if anyone (the caller included) already holds it.
    pub fn lock(&mut self, conn: usize, mutex: &String) -> (r: Result<(), ()>)
        requires
            old(self).wf(),
        ensures
            final(self).wf(),
            r is Ok <==> !old(self).holders().contains_key(mutex@),
            r is Ok ==> final(self).holders() == old(self).holders().insert(mutex@, conn),
            r is Err ==> *final(self) == *old(self),
            final(self).next_session_id() == old(self).next_session_id(),
            events_unchanged(*old(self), *final(self)),
    {
        if self.registry.try_acquire(conn, mutex) {
            Ok(())
        } else {
            Err(())
        }
    }

    /// Remove the registry entry for `mutex` if present and, exactly when an
    /// entry was removed, broadcast a release event to every subscriber.
    /// Releasing a free key is a no-op returning false, never an error.
    pub fn release(&mut self, mutex: &String) -> (r: bool)
        requires
            old(self).wf(),
        ensures
            final(self).wf(),
            r == old(self).holders().contains_key(mutex@),
            final(self).holders() == old(self).holders().remove(mutex@),
            final(self).next_session_id() == old(self).next_session_id(),
            final(self).queue_capacity() == old(self).queue_capacity(),
            forall|sid: usize| final(self).subscribed(sid) <==> old(self).subscribed(sid),
            r ==> forall|sid: usize|
                old(self).subscribed(sid) ==> final(self).queue_of(sid) == enqueue(
                    old(self).queue_of(sid),
                    mutex@,
                    old(self).queue_capacity(),
                ),
            !r ==> *final(self) == *old(self),
    {
        let removed = self.registry.release(mutex);
        if removed {
            self.notifier.emit(mutex);
        }
        removed
    }

    /// Point-in-time read: is `mutex` currently held by anyone?
    pub fn is_locked(&self, mutex: &String) -> (r: bool)
        ensures
            r == self.holders().contains_key(mutex@),
    {
        self.registry.is_locked(mutex)
    }

    /// Open a notifier subscription for session `sid`.
    pub fn subscribe(&mut self, sid: usize)
        requires
            old(self).wf(),
        ensures
            final(self).wf(),
            final(self).holders() == old(self).holders(),
            final(self).next_session_id() == old(self).next_session_id(),
            final(self).queue_capacity() == old(self).queue_capacity(),
            final(self).subscribed(sid),
            forall|s2: usize|
                final(self).subscribed(s2) <==> (old(self).subscribed(s2) || s2 == sid),
            forall|s2: usize|
                old(self).subscribed(s2) ==> final(self).queue_of(s2) == old(self).queue_of(s2),
            !old(self).subscribed(sid) ==> final(self).queue_of(sid) == Seq::<Seq<char>>::empty(),
    {
        self.notifier.subscribe(sid);
    }

    /// Close the notifier subscription of session `sid`.
    pub fn unsubscribe(&mut self, sid: usize)
        requires
            old(self).wf(),
        ensures
            final(self).wf(),
            final(self).holders() == old(self).holders(),
            final(self).next_session_id() == old(self).next_session_id(),
            final(self).queue_capacity() == old(self).queue_capacity(),
            !final(self).subscribed(sid),
            forall|s2: usize|
                s2 != sid ==> (final(self).subscribed(s2) <==> old(self).subscribed(s2)),
            forall|s2: usize|
                s2 != sid && old(self).subscribed(s2) ==> final(self).queue_of(s2)
                    == old(self).queue_of(s2),
    {
        self.notifier.unsubscribe(sid);
    }

    /// Take the oldest pending release event of subscriber `sid`, if any.
    pub fn poll_event(&mut self, sid: usize) -> (r: Option<String>)
        requires
            old(self).wf(),
        ensures
            final(self).wf(),
            final(self).holders() == old(self).holders(),
            final(self).next_session_id() == old(self).next_session_id(),
            final(self).queue_capacity() == old(self).queue_capacity(),
            forall|s2: usize| final(self).subscribed(s2) <==> old(self).subscribed(s2),
            !old(self).subscribed(sid) || old(self).queue_of(sid).len() == 0 ==> r is None
                && *final(self) == *old(self),
            old(self).subscribed(sid) && old(self).queue_of(sid).len() > 0 ==> r is Some
                && r->Some_0@ == old(self).queue_of(sid)[0] && final(self).queue_of(sid)
                == old(self).queue_of(sid).skip(1),
            forall|s2: usize|
                s2 != sid && old(self).subscribed(s2) ==> final(self).queue_of(s2)
                    == old(self).queue_of(s2),
    {
        self.notifier.poll(sid)
    }
}

impl Default for Server {
    /// A fresh server: an empty registry, no subscribers, and the session
    /// counter at 1.
    fn default() -> (s: Server)
        ensures
            s.wf(),
            s.holders() == Map::<Seq<char>, usize>::empty(),
            s.next_session_id() == 1,
            forall|sid: usize| !s.subscribed(sid),
            s.queue_capacity() == QUEUE_CAPACITY,
    {
        Server {
            registry: Registry::new(),
            notifier: Notifier::new(QUEUE_CAPACITY),
            next_id: 1,
        }
    }
}

} // verus!

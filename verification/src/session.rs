//! The per-connection session: the set of keys one connection holds and
//! the protocol state machine that mutates it.
//!
//! The transport layer owns the socket and the clock; it parses inbound
//! records into [`crate::messages::Command`] values, drives the state
//! machine one step at a time, and performs the waiting and sleeping that
//! a contended `Lock` request calls for.

use crate::messages::Command;
use crate::messages::Response;
use crate::notifier::enqueue;
use crate::notifier::enqueue_all;
use crate::notifier::key_views;
use crate::server::events_unchanged;
use crate::server::Server;
use vstd::prelude::*;

verus! {

/// The views of the keys of a sequence of strings, as a set.
pub open spec fn view_set(s: Seq<String>) -> Set<Seq<char>> {
    Set::new(|k: Seq<char>| exists|i: int| 0 <= i < s.len() && (#[trigger] s[i])@ == k)
}

/// The bidirectional ownership invariant between one session and the
/// registry: the session's held-set lists exactly the keys the registry
/// maps to its identifier.
pub open spec fn consistent(held: Set<Seq<char>>, reg: Map<Seq<char>, usize>, sid: usize) -> bool {
    forall|k: Seq<char>|
        #![trigger held.contains(k)]
        #![trigger reg.contains_key(k)]
        held.contains(k) <==> (reg.contains_key(k) && reg[k] == sid)
}

/// A `Lock(k)` request is granted at once exactly when the session already
/// holds `k` (re-entrant no-op) or `k` is free in the registry.
pub open spec fn lock_granted(held: Set<Seq<char>>, reg: Map<Seq<char>, usize>, k: Seq<char>) -> bool {
    held.contains(k) || !reg.contains_key(k)
}

/// A caller-supplied timeout has expired after `elapsed_ms`; an absent
/// timeout never expires (the wait is unbounded).
pub open spec fn wait_expired(timeout_ms: Option<u64>, elapsed_ms: u64) -> bool {
    match timeout_ms {
        Some(t) => elapsed_ms >= t,
        None => false,
    }
}

/// What the state machine asks the transport to do with one request.
#[derive(Debug, Clone, PartialEq, Eq)]
pub enum Outcome {
    /// Send this response back to the client.
    Reply(Response),
    /// The key is contended: wait for a release event or the fallback poll
    /// interval, then drive `lock_wait_step` until it resolves.
    Wait { key: String, timeout_ms: Option<u64> },
}

/// The verdict of one iteration of the contended-lock wait loop.
#[derive(Debug, Clone, Copy, PartialEq, Eq)]
pub enum LockProgress {
    /// The key was acquired; reply with success.
    Acquired,
    /// The caller's timeout elapsed first; reply with failure.
    TimedOut,
    /// Neither yet; wait for the next event or poll tick and retry.
    Waiting,
}

/// The views of the keys in `s` at positions `n` and beyond.
spec fn suffix_views(s: Seq<String>, n: int) -> Set<Seq<char>> {
    Set::new(|k: Seq<char>| exists|j: int| n <= j < s.len() && (#[trigger] s[j])@ == k)
}

/// The protocol state of one client connection.
pub struct Session {
    id: usize,
    held: Vec<String>,
}

impl Session {
    /// This session's identifier, as issued by the allocator.
    pub closed spec fn session_id(self) -> usize {
        self.id
    }

    /// The keys this session currently holds.
    pub closed spec fn held_set(self) -> Set<Seq<char>> {
        view_set(self.held@)
    }

    /// The keys this session currently holds, in acquisition order.
    pub closed spec fn held_views(self) -> Seq<Seq<char>> {
        key_views(self.held@)
    }

    /// Structural invariant: the held list names each key once.
    pub closed spec fn wf(self) -> bool {
        forall|i: int, j: int|
            0 <= i < j < self.held@.len() ==> (#[trigger] self.held@[i])@ != (
            #[trigger] self.held@[j])@
    }

    /// The ownership invariant against a given server state.
    pub open spec fn consistent_with(self, srv: Server) -> bool {
        consistent(self.held_set(), srv.holders(), self.session_id())
    }

    /// A fresh session holding nothing.
    pub fn new(id: usize) -> (s: Session)
        ensures
            s.wf(),
            s.session_id() == id,
            s.held_set() == Set::<Seq<char>>::empty(),
    {
        let s = Session { id, held: Vec::new() };
        proof {
            assert(s.held_set() =~= Set::<Seq<char>>::empty());
        }
        s
    }

    /// This session's identifier.
    pub fn id(&self) -> (r: usize)
        ensures
            r == self.session_id(),
    {
        self.id
    }

    /// Index of `key` in the held list, if this session holds it.
    fn find_held(&self, key: &String) -> (r: Option<usize>)
        ensures
            match r {
                Some(i) => i < self.held@.len() && self.held@[i as int]@ == key@,
                None => forall|i: int|
                    0 <= i < self.held@.len() ==> (#[trigger] self.held@[i])@ != key@,
            },
    {
        let mut i: usize = 0;
        while i < self.held.len()
            invariant
                i <= self.held@.len(),
                forall|j: int| 0 <= j < i ==> (#[trigger] self.held@[j])@ != key@,
            decreases self.held@.len() - i,
        {
            if self.held[i] == *key {
                return Some(i);
            }
            i += 1;
        }
        None
    }

    /// Whether this session currently holds `key`.
    pub fn holds(&self, key: &String) -> (r: bool)
        ensures
            r == self.held_set().contains(key@),
    {
        match self.find_held(key) {
            Some(i) => {
                proof {
                    assert(self.held@[i as int]@ == key@);
                }
                true
            },
            None => {
                proof {
                    if self.held_set().contains(key@) {
                        let i = choose|i: int|
                            0 <= i < self.held@.len() && (#[trigger] self.held@[i])@ == key@;
                    }
                }
                false
            },
        }
    }

    /// One acquisition attempt for `key`.  Re-entrant: a key this session
    /// already holds succeeds at once with no state change and no second
    /// registry entry.  Otherwise one atomic registry compare-and-insert is
    /// made; failure means another session holds the key, and nothing
    /// changes.  Never blocks.
    pub fn lock_attempt(&mut self, server: &mut Server, key: &String) -> (r: bool)
        requires
            old(self).wf(),
            old(server).wf(),
        ensures
            final(self).wf(),
            final(server).wf(),
            final(self).session_id() == old(self).session_id(),
            r == lock_granted(old(self).held_set(), old(server).holders(), key@),
            old(self).held_set().contains(key@) ==> *final(self) == *old(self) && *final(server)
                == *old(server),
            !old(self).held_set().contains(key@) && !old(server).holders().contains_key(key@)
                ==> final(self).held_set() == old(self).held_set().insert(key@)
                && final(server).holders() == old(server).holders().insert(
                key@,
                old(self).session_id(),
            ),
            !old(self).held_set().contains(key@) && old(server).holders().contains_key(key@)
                ==> *final(self) == *old(self) && *final(server) == *old(server),
            final(server).next_session_id() == old(server).next_session_id(),
            events_unchanged(*old(server), *final(server)),
            old(self).consistent_with(*old(server)) ==> final(self).consistent_with(
                *final(server),
            ),
    {
        if self.holds(key) {
            return true;
        }
        match server.lock(self.id, key) {
            Ok(_) => {
                self.held.push(key.clone());
                proof {
                    let pre = old(self).held@;
                    let post = self.held@;
                    let n = post.len() - 1;
                    assert(post[n]@ == key@);
                    assert forall|a: int, b: int|
                        0 <= a < b < post.len() implies (#[trigger] post[a])@ != (
                    #[trigger] post[b])@ by {
                        if b < n {
                            assert(post[a] == pre[a]);
                            assert(post[b] == pre[b]);
                        } else {
                            assert(post[a] == pre[a]);
                            assert(!old(self).held_set().contains(key@));
                        }
                    }
                    assert forall|k2: Seq<char>|
                        final(self).held_set().contains(k2) implies old(self).held_set().insert(
                        key@,
                    ).contains(k2) by {
                        let i = choose|i: int|
                            0 <= i < post.len() && (#[trigger] post[i])@ == k2;
                        if i < n {
                            assert(pre[i]@ == k2);
                        }
                    }
                    assert forall|k2: Seq<char>|
                        old(self).held_set().insert(key@).contains(k2) implies
                        final(self).held_set().contains(k2) by {
                        if k2 == key@ {
                            assert(post[n]@ == k2);
                        } else {
                            let i = choose|i: int|
                                0 <= i < pre.len() && (#[trigger] pre[i])@ == k2;
                            assert(post[i]@ == k2);
                        }
                    }
                    assert(final(self).held_set() =~= old(self).held_set().insert(key@));
                    if old(self).consistent_with(*old(server)) {
                        assert(final(self).consistent_with(*final(server)));
                    }
                }
                true
            },
            Err(_) => false,
        }
    }

    /// Release `key`.  Succeeds only when this session holds the key: the
    /// key leaves the held-set, is freed in the registry, and a release
    /// event is broadcast.  A session that does not hold `key` gets
    /// failure, and nothing changes — in particular a registry entry held
    /// by another session is unaffected.
    pub fn release(&mut self, server: &mut Server, key: &String) -> (r: bool)
        requires
            old(self).wf(),
            old(server).wf(),
        ensures
            final(self).wf(),
            final(server).wf(),
            final(self).session_id() == old(self).session_id(),
            r == old(self).held_set().contains(key@),
            final(self).held_set() == old(self).held_set().remove(key@),
            r ==> final(server).holders() == old(server).holders().remove(key@),
            !r ==> *final(self) == *old(self) && *final(server) == *old(server),
            final(server).next_session_id() == old(server).next_session_id(),
            final(server).queue_capacity() == old(server).queue_capacity(),
            forall|sid: usize| final(server).subscribed(sid) <==> old(server).subscribed(sid),
            r && old(server).holders().contains_key(key@) ==> forall|sid: usize|
                old(server).subscribed(sid) ==> final(server).queue_of(sid) == enqueue(
                    old(server).queue_of(sid),
                    key@,
                    old(server).queue_capacity(),
                ),
            r && !old(server).holders().contains_key(key@) ==> forall|sid: usize|
                old(server).subscribed(sid) ==> final(server).queue_of(sid)
                    == old(server).queue_of(sid),
            old(self).consistent_with(*old(server)) ==> final(self).consistent_with(
                *final(server),
            ),
    {
        match self.find_held(key) {
            Some(i) => {
                proof {
                    assert(self.held@[i as int]@ == key@);
                }
                self.held.remove(i);
                proof {
                    let pre = old(self).held@;
                    let post = self.held@;
                    assert forall|a: int, b: int|
                        0 <= a < b < post.len() implies (#[trigger] post[a])@ != (
                    #[trigger] post[b])@ by {
                        let sa: int = if a < i { a } else { a + 1 };
                        let sb: int = if b < i { b } else { b + 1 };
                        assert(post[a] == pre[sa]);
                        assert(post[b] == pre[sb]);
                    }
                    assert forall|k2: Seq<char>|
                        final(self).held_set().contains(k2) implies old(self).held_set().remove(
                        key@,
                    ).contains(k2) by {
                        let j = choose|j: int|
                            0 <= j < post.len() && (#[trigger] post[j])@ == k2;
                        let sj: int = if j < i { j } else { j + 1 };
                        assert(post[j] == pre[sj]);
                        assert(pre[sj]@ == k2);
                        if sj < i {
                            assert(pre[sj]@ != pre[i as int]@);
                        } else if sj > i {
                            assert(pre[i as int]@ != pre[sj]@);
                        }
                    }
                    assert forall|k2: Seq<char>|
                        old(self).held_set().remove(key@).contains(k2) implies
                        final(self).held_set().contains(k2) by {
                        let j = choose|j: int|
                            0 <= j < pre.len() && (#[trigger] pre[j])@ == k2;
                        assert(j != i);
                        let pj: int = if j < i { j } else { j - 1 };
                        assert(post[pj] == pre[j]);
                    }
                    assert(final(self).held_set() =~= old(self).held_set().remove(key@));
                }
                server.release(key);
                proof {
                    if old(self).consistent_with(*old(server)) {
                        assert(final(self).consistent_with(*final(server)));
                    }
                }
                true
            },
            None => {
                proof {
                    if old(self).held_set().contains(key@) {
                        let i = choose|i: int|
                            0 <= i < self.held@.len() && (#[trigger] self.held@[i])@ == key@;
                    }
                    assert(old(self).held_set().remove(key@) =~= old(self).held_set());
                }
                false
            },
        }
    }

    /// Teardown: release every key this session still holds, freeing each
    /// in the registry (with its release event), so that no lock outlives
    /// its owning connection.  Every released key is afterwards free, hence
    /// immediately acquirable by any other session.
    pub fn release_all(&mut self, server: &mut Server)
        requires
            old(self).wf(),
            old(server).wf(),
        ensures
            final(self).wf(),
            final(server).wf(),
            final(self).session_id() == old(self).session_id(),
            final(self).held_set() == Set::<Seq<char>>::empty(),
            final(server).holders() == old(server).holders().remove_keys(old(self).held_set()),
            final(server).next_session_id() == old(server).next_session_id(),
            final(server).queue_capacity() == old(server).queue_capacity(),
            forall|sid: usize| final(server).subscribed(sid) <==> old(server).subscribed(sid),
            old(self).consistent_with(*old(server)) ==> final(self).consistent_with(
                *final(server),
            ),
            old(self).consistent_with(*old(server)) ==> forall|sid: usize|
                old(server).subscribed(sid) ==> final(server).queue_of(sid) == enqueue_all(
                    old(server).queue_of(sid),
                    old(self).held_views(),
                    old(server).queue_capacity(),
                ),
    {
        let ghost held0 = self.held@;
        let ghost reg0 = server.holders();
        proof {
            assert forall|k2: Seq<char>| #[trigger] suffix_views(held0, held0.len() as int)
                .contains(k2) implies false by {
                let j = choose|j: int|
                    held0.len() <= j < held0.len() && (#[trigger] held0[j])@ == k2;
            }
        }
        while self.held.len() > 0
            invariant
                self.wf(),
                old(self).wf(),
                server.wf(),
                self.id == old(self).id,
                held0 == old(self).held@,
                reg0 == old(server).holders(),
                self.held@.len() <= held0.len(),
                self.held@ == held0.subrange(0, self.held@.len() as int),
                old(self).consistent_with(*old(server)) ==> forall|sid: usize|
                    old(server).subscribed(sid) ==> enqueue_all(
                        server.queue_of(sid),
                        key_views(self.held@),
                        old(server).queue_capacity(),
                    ) == enqueue_all(
                        old(server).queue_of(sid),
                        key_views(held0),
                        old(server).queue_capacity(),
                    ),
                forall|k2: Seq<char>| #[trigger]
                    server.holders().contains_key(k2) <==> (reg0.contains_key(k2)
                        && !suffix_views(held0, self.held@.len() as int).contains(k2)),
                forall|k2: Seq<char>| #[trigger]
                    server.holders().contains_key(k2) ==> server.holders()[k2] == reg0[k2],
                server.next_session_id() == old(server).next_session_id(),
                server.queue_capacity() == old(server).queue_capacity(),
                forall|sid: usize| server.subscribed(sid) <==> old(server).subscribed(sid),
            decreases self.held@.len(),
        {
            let ghost n = self.held@.len() as int;
            let ghost held_pre = self.held@;
            let k = self.held.pop().unwrap();
            proof {
                assert(k == held0[n - 1]);
                assert(self.held@ =~= held0.subrange(0, n - 1));
                assert forall|a: int, b: int|
                    0 <= a < b < self.held@.len() implies (#[trigger] self.held@[a])@ != (
                #[trigger] self.held@[b])@ by {
                    assert(self.held@[a] == held0.subrange(0, n)[a]);
                    assert(self.held@[b] == held0.subrange(0, n)[b]);
                }
            }
            let ghost srv_pre = *server;
            server.release(&k);
            proof {
                if old(self).consistent_with(*old(server)) {
                    let c = old(server).queue_capacity();
                    assert(held0[n - 1]@ == k@);
                    assert(view_set(held0).contains(k@));
                    assert(reg0.contains_key(k@) && reg0[k@] == old(self).session_id());
                    assert(!suffix_views(held0, n).contains(k@)) by {
                        if suffix_views(held0, n).contains(k@) {
                            let j = choose|j: int|
                                n <= j < held0.len() && (#[trigger] held0[j])@ == k@;
                            assert(held0[n - 1]@ != held0[j]@);
                        }
                    }
                    assert(srv_pre.holders().contains_key(k@));
                    assert forall|sid: usize| old(server).subscribed(sid) implies enqueue_all(
                        server.queue_of(sid),
                        key_views(self.held@),
                        c,
                    ) == enqueue_all(old(server).queue_of(sid), key_views(held0), c) by {
                        assert(server.queue_of(sid) == enqueue(srv_pre.queue_of(sid), k@, c));
                        assert(key_views(held_pre).len() == n);
                        assert(key_views(held_pre).last() == k@);
                        assert(key_views(self.held@) =~= key_views(held_pre).drop_last());
                        assert(enqueue_all(srv_pre.queue_of(sid), key_views(held_pre), c)
                            == enqueue_all(
                            enqueue(srv_pre.queue_of(sid), k@, c),
                            key_views(held_pre).drop_last(),
                            c,
                        ));
                    }
                }
                assert forall|k2: Seq<char>| #[trigger] suffix_views(held0, n - 1).contains(
                    k2,
                ) implies (suffix_views(held0, n).contains(k2) || k2 == held0[n - 1]@) by {
                    let j = choose|j: int|
                        n - 1 <= j < held0.len() && (#[trigger] held0[j])@ == k2;
                    if j >= n {
                        assert(suffix_views(held0, n).contains(k2));
                    }
                }
                assert forall|k2: Seq<char>|
                    suffix_views(held0, n).contains(k2) || k2 == held0[n - 1]@ implies #[trigger]
                    suffix_views(held0, n - 1).contains(k2) by {
                    if suffix_views(held0, n).contains(k2) {
                        let j = choose|j: int|
                            n <= j < held0.len() && (#[trigger] held0[j])@ == k2;
                        assert(held0[j]@ == k2);
                    } else {
                        assert(held0[n - 1]@ == k2);
                    }
                }
            }
        }
        proof {
            assert(final(self).held_set() =~= Set::<Seq<char>>::empty());
            assert forall|k2: Seq<char>| #[trigger] suffix_views(held0, 0).contains(k2) implies
                old(self).held_set().contains(k2) by {
                let j = choose|j: int| 0 <= j < held0.len() && (#[trigger] held0[j])@ == k2;
            }
            assert forall|k2: Seq<char>| old(self).held_set().contains(k2) implies #[trigger]
                suffix_views(held0, 0).contains(k2) by {
                let j = choose|j: int| 0 <= j < held0.len() && (#[trigger] held0[j])@ == k2;
            }
            assert(final(server).holders() =~= old(server).holders().remove_keys(
                old(self).held_set(),
            ));
            if old(self).consistent_with(*old(server)) {
                assert forall|k2: Seq<char>|
                    !(final(server).holders().contains_key(k2) && final(server).holders()[k2]
                        == old(self).session_id()) by {
                    if reg0.contains_key(k2) && reg0[k2] == old(self).session_id() {
                        assert(old(self).held_set().contains(k2));
                    }
                }
                assert(final(self).consistent_with(*final(server)));
                assert forall|sid: usize| old(server).subscribed(sid) implies
                    final(server).queue_of(sid) == enqueue_all(
                    old(server).queue_of(sid),
                    old(self).held_views(),
                    old(server).queue_capacity(),
                ) by {
                    assert(key_views(self.held@).len() == 0);
                    assert(enqueue_all(
                        server.queue_of(sid),
                        key_views(self.held@),
                        old(server).queue_capacity(),
                    ) == server.queue_of(sid));
                }
            }
        }
    }

    /// Dispatch one inbound request.  A `Lock` that cannot be granted at
    /// once does not block here: the transport is asked to wait and then to
    /// drive [`Session::lock_wait_step`].  `Check` reports whether this
    /// session itself holds the key.
    pub fn handle_command(&mut self, server: &mut Server, cmd: Command) -> (r: Outcome)
        requires
            old(self).wf(),
            old(server).wf(),
        ensures
            final(self).wf(),
            final(server).wf(),
            final(self).session_id() == old(self).session_id(),
            final(server).next_session_id() == old(server).next_session_id(),
            final(server).queue_capacity() == old(server).queue_capacity(),
            forall|sid: usize| final(server).subscribed(sid) <==> old(server).subscribed(sid),
            old(self).consistent_with(*old(server)) ==> final(self).consistent_with(
                *final(server),
            ),
            match cmd {
                Command::Lock { id, timeout_ms } => {
                    &&& lock_granted(old(self).held_set(), old(server).holders(), id@)
                        ==> r == Outcome::Reply(
                        (Response::LockResponse { id: id, success: true }),
                    )
                    &&& !lock_granted(old(self).held_set(), old(server).holders(), id@) ==> r
                        == (Outcome::Wait { key: id, timeout_ms: timeout_ms }) && *final(self)
                        == *old(self) && *final(server) == *old(server)
                    &&& old(self).held_set().contains(id@) ==> *final(self) == *old(self)
                        && *final(server) == *old(server)
                    &&& !old(self).held_set().contains(id@) && !old(
                        server,
                    ).holders().contains_key(id@) ==> final(self).held_set() == old(
                        self,
                    ).held_set().insert(id@) && final(server).holders() == old(
                        server,
                    ).holders().insert(id@, old(self).session_id())
                    &&& events_unchanged(*old(server), *final(server))
                },
                Command::Release { id } => {
                    &&& r == Outcome::Reply(
                        (Response::ReleaseResponse {
                            id: id,
                            success: old(self).held_set().contains(id@),
                        }),
                    )
                    &&& final(self).held_set() == old(self).held_set().remove(id@)
                    &&& old(self).held_set().contains(id@) ==> final(server).holders() == old(
                        server,
                    ).holders().remove(id@)
                    &&& !old(self).held_set().contains(id@) ==> *final(self) == *old(self)
                        && *final(server) == *old(server)
                    &&& old(self).held_set().contains(id@) && old(
                        server,
                    ).holders().contains_key(id@) ==> forall|sid: usize|
                        old(server).subscribed(sid) ==> final(server).queue_of(sid) == enqueue(
                            old(server).queue_of(sid),
                            id@,
                            old(server).queue_capacity(),
                        )
                },
                Command::Check { id } => {
                    &&& r == Outcome::Reply(
                        (Response::CheckResponse {
                            id: id,
                            is_locked: old(self).held_set().contains(id@),
                        }),
                    )
                    &&& *final(self) == *old(self)
                    &&& *final(server) == *old(server)
                },
            },
    {
        match cmd {
            Command::Lock { id, timeout_ms } => {
                let success = self.lock_attempt(server, &id);
                if success {
                    Outcome::Reply(Response::LockResponse { id, success: true })
                } else {
                    Outcome::Wait { key: id, timeout_ms }
                }
            },
            Command::Release { id } => {
                let success = self.release(server, &id);
                Outcome::Reply(Response::ReleaseResponse { id, success })
            },
            Command::Check { id } => {
                let is_locked = self.holds(&id);
                Outcome::Reply(Response::CheckResponse { id, is_locked })
            },
        }
    }

    /// One iteration of the hybrid wait loop for a contended `Lock`: retry
    /// the acquisition (after a release event or a fallback-poll tick),
    /// and only if it still fails test the caller's timeout against the
    /// elapsed time.  Correctness never depends on event delivery, only on
    /// this re-check being driven again.
    pub fn lock_wait_step(
        &mut self,
        server: &mut Server,
        key: &String,
        timeout_ms: Option<u64>,
        elapsed_ms: u64,
    ) -> (r: LockProgress)
        requires
            old(self).wf(),
            old(server).wf(),
        ensures
            final(self).wf(),
            final(server).wf(),
            final(self).session_id() == old(self).session_id(),
            r == (if lock_granted(old(self).held_set(), old(server).holders(), key@) {
                LockProgress::Acquired
            } else if wait_expired(timeout_ms, elapsed_ms) {
                LockProgress::TimedOut
            } else {
                LockProgress::Waiting
            }),
            old(self).held_set().contains(key@) ==> *final(self) == *old(self) && *final(server)
                == *old(server),
            !old(self).held_set().contains(key@) && !old(server).holders().contains_key(key@)
                ==> final(self).held_set() == old(self).held_set().insert(key@)
                && final(server).holders() == old(server).holders().insert(
                key@,
                old(self).session_id(),
            ),
            !old(self).held_set().contains(key@) && old(server).holders().contains_key(key@)
                ==> *final(self) == *old(self) && *final(server) == *old(server),
            final(server).next_session_id() == old(server).next_session_id(),
            events_unchanged(*old(server), *final(server)),
            old(self).consistent_with(*old(server)) ==> final(self).consistent_with(
                *final(server),
            ),
    {
        let got = self.lock_attempt(server, key);
        if got {
            LockProgress::Acquired
        } else {
            match timeout_ms {
                Some(t) => if elapsed_ms >= t {
                    LockProgress::TimedOut
                } else {
                    LockProgress::Waiting
                },
                None => LockProgress::Waiting,
            }
        }
    }
}

} // verus!

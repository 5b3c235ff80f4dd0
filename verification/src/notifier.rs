//! The release notifier: fans "this key was released" events out to every
//! subscribed session.
//!
//! Each subscriber owns an independent bounded queue of pending events.
//! Delivery is best effort: when a queue is full the oldest pending event is
//! dropped in favour of the new one, so the newest release is always
//! delivered to every live subscriber.  Consumers must re-validate by
//! retrying acquisition after waking, so a dropped event costs at most an
//! extra retry cycle, never incorrect exclusion.

use vstd::prelude::*;

verus! {

/// The views of a sequence of lock keys.
pub open spec fn key_views(s: Seq<String>) -> Seq<Seq<char>> {
    s.map_values(|k: String| k@)
}

/// One event appended to a bounded queue: when the queue is already at
/// capacity the oldest pending event is dropped in favour of the new one.
pub open spec fn enqueue(q: Seq<Seq<char>>, k: Seq<char>, cap: nat) -> Seq<Seq<char>> {
    if q.len() < cap {
        q.push(k)
    } else {
        q.skip(1).push(k)
    }
}

/// The release events of every key in `ks` appended in turn, from the last
/// key to the first — the order in which a session teardown emits them.
pub open spec fn enqueue_all(q: Seq<Seq<char>>, ks: Seq<Seq<char>>, cap: nat) -> Seq<Seq<char>>
    decreases ks.len(),
{
    if ks.len() == 0 {
        q
    } else {
        enqueue_all(enqueue(q, ks.last(), cap), ks.drop_last(), cap)
    }
}

/// Broadcast fan-out of release events, one bounded queue per subscriber.
pub struct Notifier {
    capacity: usize,
    subs: Vec<(usize, Vec<String>)>,
}

proof fn lemma_key_views_push(s: Seq<String>, k: String)
    ensures
        key_views(s.push(k)) == key_views(s).push(k@),
{
    assert(key_views(s.push(k)) =~= key_views(s).push(k@));
}

proof fn lemma_key_views_pop_front(s: Seq<String>)
    requires
        s.len() >= 1,
    ensures
        key_views(s.remove(0)) == key_views(s).skip(1),
{
    assert(key_views(s.remove(0)) =~= key_views(s).skip(1));
}

impl Notifier {
    /// No two subscriptions carry the same session identifier.
    pub closed spec fn distinct_sids(self) -> bool {
        forall|i: int, j: int|
            0 <= i < j < self.subs@.len() ==> (#[trigger] self.subs@[i]).0 != (
            #[trigger] self.subs@[j]).0
    }

    /// Structural invariant: a positive capacity, unique subscriber
    /// identifiers, and every queue within the capacity bound.
    pub closed spec fn wf(self) -> bool {
        &&& self.capacity >= 1
        &&& self.distinct_sids()
        &&& forall|i: int|
            0 <= i < self.subs@.len() ==> (#[trigger] self.subs@[i]).1@.len() <= self.capacity
    }

    /// The queue capacity this notifier was created with.
    pub closed spec fn cap(self) -> nat {
        self.capacity as nat
    }

    /// Whether `sid` currently has a subscription.
    pub closed spec fn subscribed(self, sid: usize) -> bool {
        exists|i: int| 0 <= i < self.subs@.len() && (#[trigger] self.subs@[i]).0 == sid
    }

    /// The pending events of subscriber `sid`, oldest first.  Meaningful
    /// only while `sid` is subscribed.
    pub closed spec fn queue_of(self, sid: usize) -> Seq<Seq<char>> {
        if self.subscribed(sid) {
            let i = choose|i: int|
                0 <= i < self.subs@.len() && (#[trigger] self.subs@[i]).0 == sid;
            key_views(self.subs@[i].1@)
        } else {
            Seq::empty()
        }
    }

    proof fn lemma_sub_at(self, i: int)
        requires
            self.distinct_sids(),
            0 <= i < self.subs@.len(),
        ensures
            self.subscribed(self.subs@[i].0),
            self.queue_of(self.subs@[i].0) == key_views(self.subs@[i].1@),
    {
        let sid = self.subs@[i].0;
        assert(self.subscribed(sid));
        let j = choose|j: int| 0 <= j < self.subs@.len() && (#[trigger] self.subs@[j]).0 == sid;
        if i < j {
            assert(self.subs@[i].0 != self.subs@[j].0);
        } else if j < i {
            assert(self.subs@[j].0 != self.subs@[i].0);
        }
    }

    /// A notifier with no subscribers.
    pub fn new(capacity: usize) -> (r: Notifier)
        requires
            capacity >= 1,
        ensures
            r.wf(),
            r.cap() == capacity,
            forall|sid: usize| !r.subscribed(sid),
    {
        Notifier { capacity, subs: Vec::new() }
    }

    /// Index of the subscription of `sid`, if any.
    fn find_sub(&self, sid: usize) -> (r: Option<usize>)
        ensures
            match r {
                Some(i) => i < self.subs@.len() && self.subs@[i as int].0 == sid,
                None => forall|i: int|
                    0 <= i < self.subs@.len() ==> (#[trigger] self.subs@[i]).0 != sid,
            },
    {
        let mut i: usize = 0;
        while i < self.subs.len()
            invariant
                i <= self.subs@.len(),
                forall|j: int| 0 <= j < i ==> (#[trigger] self.subs@[j]).0 != sid,
            decreases self.subs@.len() - i,
        {
            if self.subs[i].0 == sid {
                return Some(i);
            }
            i += 1;
        }
        None
    }

    /// Open an (initially empty) subscription for `sid`; a second
    /// subscription for an already subscribed identifier is a no-op.
    pub fn subscribe(&mut self, sid: usize)
        requires
            old(self).wf(),
        ensures
            final(self).wf(),
            final(self).cap() == old(self).cap(),
            final(self).subscribed(sid),
            old(self).subscribed(sid) ==> *final(self) == *old(self),
            forall|s2: usize|
                final(self).subscribed(s2) <==> (old(self).subscribed(s2) || s2 == sid),
            forall|s2: usize|
                old(self).subscribed(s2) ==> final(self).queue_of(s2) == old(self).queue_of(s2),
            !old(self).subscribed(sid) ==> final(self).queue_of(sid) == Seq::<Seq<char>>::empty(),
    {
        match self.find_sub(sid) {
            Some(i) => {
                proof {
                    self.lemma_sub_at(i as int);
                }
            },
            None => {
                let fresh: Vec<String> = Vec::new();
                self.subs.push((sid, fresh));
                proof {
                    let n = self.subs@.len() - 1;
                    assert(self.subs@[n].0 == sid);
                    assert(forall|j: int|
                        0 <= j < n ==> self.subs@[j] == old(self).subs@[j]);
                    assert(self.distinct_sids());
                    self.lemma_sub_at(n);
                    assert(key_views(self.subs@[n].1@) =~= Seq::<Seq<char>>::empty());
                    let ghost pre0 = old(self).subs@;
                    assert forall|s2: usize| old(self).subscribed(s2) implies
                        final(self).subscribed(s2)
                        && final(self).queue_of(s2) == old(self).queue_of(s2) by {
                        let j = choose|j: int|
                            0 <= j < pre0.len() && (#[trigger] pre0[j]).0 == s2;
                        old(self).lemma_sub_at(j);
                        self.lemma_sub_at(j);
                    }
                    assert forall|s2: usize|
                        final(self).subscribed(s2) && s2 != sid implies
                        old(self).subscribed(s2) by {
                        let j = choose|j: int|
                            0 <= j < self.subs@.len() && (#[trigger] self.subs@[j]).0 == s2;
                        assert(j != n);
                        assert(old(self).subs@[j].0 == s2);
                    }
                }
            },
        }
    }

    /// Close the subscription of `sid`, discarding its pending events.
    pub fn unsubscribe(&mut self, sid: usize)
        requires
            old(self).wf(),
        ensures
            final(self).wf(),
            final(self).cap() == old(self).cap(),
            !final(self).subscribed(sid),
            !old(self).subscribed(sid) ==> *final(self) == *old(self),
            forall|s2: usize|
                s2 != sid ==> (final(self).subscribed(s2) <==> old(self).subscribed(s2)),
            forall|s2: usize|
                s2 != sid && old(self).subscribed(s2) ==> final(self).queue_of(s2)
                    == old(self).queue_of(s2),
    {
        match self.find_sub(sid) {
            Some(i) => {
                self.subs.remove(i);
                proof {
                    let pre = old(self).subs@;
                    let post = self.subs@;
                    assert forall|a: int, b: int|
                        0 <= a < b < post.len() implies (#[trigger] post[a]).0 != (
                    #[trigger] post[b]).0 by {
                        let sa: int = if a < i { a } else { a + 1 };
                        let sb: int = if b < i { b } else { b + 1 };
                        assert(post[a] == pre[sa]);
                        assert(post[b] == pre[sb]);
                    }
                    assert forall|j: int|
                        0 <= j < post.len() implies (#[trigger] post[j]).1@.len()
                            <= self.capacity by {
                        let sj: int = if j < i { j } else { j + 1 };
                        assert(post[j] == pre[sj]);
                    }
                    assert forall|j: int|
                        0 <= j < post.len() implies (#[trigger] post[j]).0 != sid by {
                        let sj: int = if j < i { j } else { j + 1 };
                        assert(post[j] == pre[sj]);
                        if sj != i {
                            if sj < i {
                                assert(pre[sj].0 != pre[i as int].0);
                            } else {
                                assert(pre[i as int].0 != pre[sj].0);
                            }
                        }
                    }
                    assert forall|s2: usize|
                        s2 != sid && old(self).subscribed(s2) implies final(self).subscribed(s2)
                            && final(self).queue_of(s2) == old(self).queue_of(s2) by {
                        let j = choose|j: int|
                            0 <= j < pre.len() && (#[trigger] pre[j]).0 == s2;
                        old(self).lemma_sub_at(j);
                        let pj: int = if j < i { j } else { j - 1 };
                        assert(post[pj] == pre[j]);
                        self.lemma_sub_at(pj);
                    }
                    assert forall|s2: usize|
                        s2 != sid && final(self).subscribed(s2) implies
                        old(self).subscribed(s2) by {
                        let j = choose|j: int|
                            0 <= j < post.len() && (#[trigger] post[j]).0 == s2;
                        let sj: int = if j < i { j } else { j + 1 };
                        assert(post[j] == pre[sj]);
                    }
                }
            },
            None => {},
        }
    }

    /// Broadcast a release event for `key` to every subscriber's queue.
    pub fn emit(&mut self, key: &String)
        requires
            old(self).wf(),
        ensures
            final(self).wf(),
            final(self).cap() == old(self).cap(),
            forall|s2: usize| final(self).subscribed(s2) <==> old(self).subscribed(s2),
            forall|s2: usize|
                old(self).subscribed(s2) ==> final(self).queue_of(s2) == enqueue(
                    old(self).queue_of(s2),
                    key@,
                    old(self).cap(),
                ),
    {
        let ghost pre = old(self).subs@;
        let ghost cap = old(self).cap();
        let mut i: usize = 0;
        while i < self.subs.len()
            invariant
                self.capacity == old(self).capacity,
                self.capacity >= 1,
                cap == self.capacity as nat,
                i <= self.subs@.len(),
                self.subs@.len() == pre.len(),
                forall|j: int| 0 <= j < pre.len() ==> (#[trigger] self.subs@[j]).0 == pre[j].0,
                forall|j: int| i <= j < pre.len() ==> (#[trigger] self.subs@[j]).1 == pre[j].1,
                forall|j: int|
                    0 <= j < i ==> key_views((#[trigger] self.subs@[j]).1@) == enqueue(
                        key_views(pre[j].1@),
                        key@,
                        cap,
                    ),
                forall|j: int|
                    0 <= j < pre.len() ==> (#[trigger] self.subs@[j]).1@.len() <= self.capacity,
                old(self).distinct_sids(),
            decreases pre.len() - i,
        {
            let ghost at_top = self.subs@;
            let mut entry = self.subs.remove(i);
            let ghost e = at_top[i as int];
            if entry.1.len() < self.capacity {
                entry.1.push(key.clone());
                proof {
                    lemma_key_views_push(e.1@, entry.1@.last());
                    assert(key_views(entry.1@) == key_views(e.1@).push(key@));
                }
            } else {
                entry.1.remove(0);
                entry.1.push(key.clone());
                proof {
                    lemma_key_views_pop_front(e.1@);
                    lemma_key_views_push(e.1@.remove(0), entry.1@.last());
                    assert(key_views(entry.1@) == key_views(e.1@).skip(1).push(key@));
                }
            }
            let ghost e2 = entry;
            self.subs.insert(i, entry);
            proof {
                assert(self.subs@ =~= at_top.update(i as int, e2));
                assert(key_views(e2.1@) == enqueue(key_views(e.1@), key@, cap));
            }
            i += 1;
        }
        proof {
            assert(self.distinct_sids());
            assert forall|s2: usize| old(self).subscribed(s2) implies final(self).subscribed(s2)
                && final(self).queue_of(s2) == enqueue(old(self).queue_of(s2), key@, cap) by {
                let j = choose|j: int| 0 <= j < pre.len() && (#[trigger] pre[j]).0 == s2;
                old(self).lemma_sub_at(j);
                self.lemma_sub_at(j);
            }
            assert forall|s2: usize| final(self).subscribed(s2) implies
                old(self).subscribed(s2) by {
                let j = choose|j: int|
                    0 <= j < self.subs@.len() && (#[trigger] self.subs@[j]).0 == s2;
                assert(pre[j].0 == s2);
                old(self).lemma_sub_at(j);
            }
        }
    }

    /// Take the oldest pending event of subscriber `sid`, if any.
    pub fn poll(&mut self, sid: usize) -> (r: Option<String>)
        requires
            old(self).wf(),
        ensures
            final(self).wf(),
            final(self).cap() == old(self).cap(),
            forall|s2: usize| final(self).subscribed(s2) <==> old(self).subscribed(s2),
            !old(self).subscribed(sid) || old(self).queue_of(sid).len() == 0 ==> r is None
                && *final(self) == *old(self),
            old(self).subscribed(sid) && old(self).queue_of(sid).len() > 0 ==> r is Some
                && r->Some_0@ == old(self).queue_of(sid)[0] && final(self).queue_of(sid)
                == old(self).queue_of(sid).skip(1),
            forall|s2: usize|
                s2 != sid && old(self).subscribed(s2) ==> final(self).queue_of(s2)
                    == old(self).queue_of(s2),
    {
        match self.find_sub(sid) {
            Some(i) => {
                proof {
                    self.lemma_sub_at(i as int);
                }
                if self.subs[i].1.len() == 0 {
                    None
                } else {
                    let ghost pre = self.subs@;
                    let mut entry = self.subs.remove(i);
                    let k = entry.1.remove(0);
                    proof {
                        lemma_key_views_pop_front(pre[i as int].1@);
                    }
                    let ghost e2 = entry;
                    self.subs.insert(i, entry);
                    proof {
                        assert(self.subs@ =~= pre.update(i as int, e2));
                        assert(forall|j: int|
                            0 <= j < pre.len() && j != i ==> self.subs@[j] == pre[j]);
                        assert(self.distinct_sids());
                        self.lemma_sub_at(i as int);
                        assert(k@ == key_views(pre[i as int].1@)[0]);
                        assert forall|s2: usize|
                            s2 != sid && old(self).subscribed(s2) implies
                            final(self).queue_of(s2) == old(self).queue_of(s2) by {
                            let j = choose|j: int|
                                0 <= j < pre.len() && (#[trigger] pre[j]).0 == s2;
                            old(self).lemma_sub_at(j);
                            assert(j != i);
                            self.lemma_sub_at(j);
                        }
                        assert forall|s2: usize| final(self).subscribed(s2) implies
                            old(self).subscribed(s2) by {
                            let j = choose|j: int|
                                0 <= j < self.subs@.len() && (#[trigger] self.subs@[j]).0 == s2;
                            assert(pre[j].0 == s2);
                            old(self).lemma_sub_at(j);
                        }
                        assert forall|s2: usize| old(self).subscribed(s2) implies
                            final(self).subscribed(s2) by {
                            let j = choose|j: int|
                                0 <= j < pre.len() && (#[trigger] pre[j]).0 == s2;
                            self.lemma_sub_at(j);
                        }
                    }
                    Some(k)
                }
            },
            None => None,
        }
    }
}

} // verus!

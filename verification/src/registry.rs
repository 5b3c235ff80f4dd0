//! The shared lock registry: the single source of truth mapping each lock
//! key to the session that currently holds it.
//!
//! A key is present in the registry exactly when some session holds it; an
//! absent key is free.  The registry is a pure data structure; the server
//! wraps it together with the release notifier.

use vstd::prelude::*;

verus! {

/// No two entries name the same key.
pub open spec fn distinct_keys(s: Seq<(String, usize)>) -> bool {
    forall|i: int, j: int|
        0 <= i < j < s.len() ==> (#[trigger] s[i].0@) != (#[trigger] s[j].0@)
}

/// The finite map described by an association list of (key, holder) entries.
/// A later entry for a key overrides an earlier one; under `distinct_keys`
/// there is at most one entry per key.
pub open spec fn holder_map(s: Seq<(String, usize)>) -> Map<Seq<char>, usize>
    decreases s.len(),
{
    if s.len() == 0 {
        Map::empty()
    } else {
        holder_map(s.drop_last()).insert(s.last().0@, s.last().1)
    }
}

/// The lock table.  Viewed abstractly as a `Map` from key (a character
/// sequence) to the identifier of the holding session.
pub struct Registry {
    entries: Vec<(String, usize)>,
}

impl View for Registry {
    type V = Map<Seq<char>, usize>;

    closed spec fn view(&self) -> Map<Seq<char>, usize> {
        holder_map(self.entries@)
    }
}

proof fn lemma_holder_map_contains(s: Seq<(String, usize)>, k: Seq<char>)
    ensures
        holder_map(s).contains_key(k) <==> exists|i: int|
            0 <= i < s.len() && (#[trigger] s[i].0@) == k,
    decreases s.len(),
{
    if s.len() > 0 {
        let t = s.drop_last();
        lemma_holder_map_contains(t, k);
        if s.last().0@ == k {
            assert(s[s.len() - 1].0@ == k);
        } else {
            if holder_map(s).contains_key(k) {
                let i = choose|i: int| 0 <= i < t.len() && (#[trigger] t[i].0@) == k;
                assert(s[i].0@ == k);
            }
            if exists|i: int| 0 <= i < s.len() && (#[trigger] s[i].0@) == k {
                let i = choose|i: int| 0 <= i < s.len() && (#[trigger] s[i].0@) == k;
                assert(t[i].0@ == k);
            }
        }
    }
}

proof fn lemma_holder_map_value(s: Seq<(String, usize)>, i: int)
    requires
        distinct_keys(s),
        0 <= i < s.len(),
    ensures
        holder_map(s).contains_key(s[i].0@),
        holder_map(s)[s[i].0@] == s[i].1,
    decreases s.len(),
{
    let t = s.drop_last();
    if i == s.len() - 1 {
    } else {
        assert(distinct_keys(t)) by {
            assert(forall|a: int, b: int|
                0 <= a < b < t.len() ==> t[a] == s[a] && t[b] == s[b]);
        }
        assert(t[i] == s[i]);
        lemma_holder_map_value(t, i);
        assert(s[i].0@ != s[s.len() - 1].0@);
    }
}

proof fn lemma_holder_map_push(s: Seq<(String, usize)>, p: (String, usize))
    ensures
        holder_map(s.push(p)) == holder_map(s).insert(p.0@, p.1),
{
    assert(s.push(p).drop_last() =~= s);
    assert(s.push(p).last() == p);
}

proof fn lemma_holder_map_remove(s: Seq<(String, usize)>, i: int)
    requires
        distinct_keys(s),
        0 <= i < s.len(),
    ensures
        holder_map(s.remove(i)) == holder_map(s).remove(s[i].0@),
    decreases s.len(),
{
    let t = s.drop_last();
    let k = s[i].0@;
    assert(distinct_keys(t)) by {
        assert(forall|a: int, b: int|
            0 <= a < b < t.len() ==> t[a] == s[a] && t[b] == s[b]);
    }
    if i == s.len() - 1 {
        assert(s.remove(i) =~= t);
        lemma_holder_map_contains(t, k);
        assert forall|j: int| 0 <= j < t.len() implies (#[trigger] t[j].0@) != k by {
            assert(t[j] == s[j]);
            assert(s[j].0@ != s[i].0@);
        }
        assert(!holder_map(t).contains_key(k));
        assert(holder_map(s).remove(k) =~= holder_map(t));
    } else {
        let r = s.remove(i);
        assert(r.last() == s.last());
        assert(r.drop_last() =~= t.remove(i));
        lemma_holder_map_remove(t, i);
        assert(t[i] == s[i]);
        let lk = s.last().0@;
        let lv = s.last().1;
        assert(lk != k) by {
            assert(s[i].0@ != s[s.len() - 1].0@);
        }
        assert(holder_map(r) == holder_map(t).remove(k).insert(lk, lv));
        assert(holder_map(t).remove(k).insert(lk, lv) =~= holder_map(t).insert(
            lk,
            lv,
        ).remove(k));
    }
}

impl Registry {
    /// The registry's structural invariant: one entry per key.
    pub closed spec fn wf(self) -> bool {
        distinct_keys(self.entries@)
    }

    /// An empty registry: every key is free.
    pub fn new() -> (r: Registry)
        ensures
            r.wf(),
            r@ == Map::<Seq<char>, usize>::empty(),
    {
        Registry { entries: Vec::new() }
    }

    /// Index of the entry for `key`, if any.
    fn find_index(&self, key: &String) -> (r: Option<usize>)
        ensures
            match r {
                Some(i) => i < self.entries@.len() && self.entries@[i as int].0@ == key@,
                None => forall|i: int|
                    0 <= i < self.entries@.len() ==> (#[trigger] self.entries@[i].0@) != key@,
            },
    {
        let mut i: usize = 0;
        while i < self.entries.len()
            invariant
                i <= self.entries@.len(),
                forall|j: int| 0 <= j < i ==> (#[trigger] self.entries@[j].0@) != key@,
            decreases self.entries@.len() - i,
        {
            if self.entries[i].0 == *key {
                return Some(i);
            }
            i += 1;
        }
        None
    }

    /// Atomic compare-and-insert: record `conn` as the holder of `key` only
    /// if `key` is free.  Returns whether the acquisition succeeded; a held
    /// key (held by anyone, the caller included) is left untouched.
    pub fn try_acquire(&mut self, conn: usize, key: &String) -> (r: bool)
        requires
            old(self).wf(),
        ensures
            final(self).wf(),
            r == !old(self)@.contains_key(key@),
            r ==> final(self)@ == old(self)@.insert(key@, conn),
            !r ==> *final(self) == *old(self),
    {
        proof {
            lemma_holder_map_contains(self.entries@, key@);
        }
        match self.find_index(key) {
            Some(_) => false,
            None => {
                let k = key.clone();
                self.entries.push((k, conn));
                proof {
                    lemma_holder_map_push(old(self).entries@, (k, conn));
                    let s = self.entries@;
                    assert forall|a: int, b: int|
                        0 <= a < b < s.len() implies (#[trigger] s[a].0@) != (
                    #[trigger] s[b].0@) by {
                        if b == s.len() - 1 {
                            assert(s[a] == old(self).entries@[a]);
                        } else {
                            assert(s[a] == old(self).entries@[a]);
                            assert(s[b] == old(self).entries@[b]);
                        }
                    }
                }
                true
            },
        }
    }

    /// Remove the entry for `key` if present; returns whether an entry was
    /// actually removed.  Releasing a free key is a no-op returning false,
    /// never an error.
    pub fn release(&mut self, key: &String) -> (r: bool)
        requires
            old(self).wf(),
        ensures
            final(self).wf(),
            r == old(self)@.contains_key(key@),
            final(self)@ == old(self)@.remove(key@),
            !r ==> *final(self) == *old(self),
    {
        proof {
            lemma_holder_map_contains(self.entries@, key@);
        }
        match self.find_index(key) {
            Some(i) => {
                proof {
                    lemma_holder_map_remove(self.entries@, i as int);
                }
                self.entries.remove(i);
                proof {
                    let s = self.entries@;
                    assert forall|a: int, b: int|
                        0 <= a < b < s.len() implies (#[trigger] s[a].0@) != (
                    #[trigger] s[b].0@) by {
                        let sa: int = if a < i { a } else { a + 1 };
                        let sb: int = if b < i { b } else { b + 1 };
                        assert(s[a] == old(self).entries@[sa]);
                        assert(s[b] == old(self).entries@[sb]);
                    }
                }
                true
            },
            None => {
                proof {
                    assert(old(self)@.remove(key@) =~= old(self)@);
                }
                false
            },
        }
    }

    /// Point-in-time read: is `key` currently held by anyone?
    pub fn is_locked(&self, key: &String) -> (r: bool)
        ensures
            r == self@.contains_key(key@),
    {
        proof {
            lemma_holder_map_contains(self.entries@, key@);
        }
        self.find_index(key).is_some()
    }

    /// The holder of `key`, if any.
    pub fn holder(&self, key: &String) -> (r: Option<usize>)
        requires
            self.wf(),
        ensures
            match r {
                Some(conn) => self@.contains_key(key@) && self@[key@] == conn,
                None => !self@.contains_key(key@),
            },
    {
        proof {
            lemma_holder_map_contains(self.entries@, key@);
        }
        match self.find_index(key) {
            Some(i) => {
                proof {
                    lemma_holder_map_value(self.entries@, i as int);
                }
                Some(self.entries[i].1)
            },
            None => None,
        }
    }
}

} // verus!

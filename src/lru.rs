//! A least-recently-used cache: a list of key/value pairs ordered from the
//! least to the most recently used.
use vstd::prelude::*;

verus! {

/// The keys of `s` are pairwise distinct.
pub open spec fn keys_unique(s: Seq<(i32, i32)>) -> bool {
    forall|i: int, j: int| 0 <= i < s.len() && 0 <= j < s.len() && i != j ==> s[i].0 != s[j].0
}

pub open spec fn holds_key(s: Seq<(i32, i32)>, k: i32) -> bool {
    exists|i: int| 0 <= i < s.len() && #[trigger] s[i].0 == k
}

pub struct LRUCache {
    cap: usize,
    entries: Vec<(i32, i32)>,
}

impl LRUCache {
    /// The pairs held, least recently used first.
    pub closed spec fn view(&self) -> Seq<(i32, i32)> {
        self.entries@
    }

    pub closed spec fn capacity(&self) -> nat {
        self.cap as nat
    }

    pub closed spec fn wf(&self) -> bool {
        self.entries@.len() <= self.cap && keys_unique(self.entries@)
    }

    /// An empty cache that holds at most `capacity` keys.
    pub fn new(capacity: usize) -> (r: Self)
        ensures
            r.wf(),
            r@ == Seq::<(i32, i32)>::empty(),
            r.capacity() == capacity,
    {
        LRUCache { cap: capacity, entries: Vec::new() }
    }

    fn find(&self, key: i32) -> (r: Option<usize>)
        ensures
            match r {
                Some(i) => i < self@.len() && self@[i as int].0 == key,
                None => !holds_key(self@, key),
            },
    {
        let mut i: usize = 0;
        while i < self.entries.len()
            invariant
                i <= self.entries@.len(),
                forall|j: int| 0 <= j < i ==> self.entries@[j].0 != key,
            decreases self.entries@.len() - i,
        {
            if self.entries[i].0 == key {
                return Some(i);
            }
            i = i + 1;
        }
        None
    }

    /// Moves the pair at `i` to the most recent end, with `value` as its value.
    fn refresh(&mut self, i: usize, value: i32)
        requires
            old(self).wf(),
            i < old(self)@.len(),
        ensures
            final(self).wf(),
            final(self).capacity() == old(self).capacity(),
            final(self)@ == old(self)@.remove(i as int).push((old(self)@[i as int].0, value)),
    {
        let ghost s = self.entries@;
        let (key, _) = self.entries.remove(i);
        self.entries.push((key, value));
        proof {
            let t = self.entries@;
            assert forall|a: int, b: int| 0 <= a < t.len() && 0 <= b < t.len() && a != b implies t[a].0
                != t[b].0 by {
                let a0 = if a == t.len() - 1 { i as int } else if a < i { a } else { a + 1 };
                let b0 = if b == t.len() - 1 { i as int } else if b < i { b } else { b + 1 };
                assert(t[a].0 == s[a0].0 && t[b].0 == s[b0].0);
            }
        }
    }

    /// The value of `key`, which becomes the most recently used.
    pub fn get(&mut self, key: i32) -> (r: i32)
        requires
            old(self).wf(),
        ensures
            final(self).wf(),
            final(self).capacity() == old(self).capacity(),
            holds_key(old(self)@, key) ==> exists|i: int|
                0 <= i < old(self)@.len() && #[trigger] old(self)@[i].0 == key && r == old(self)@[i].1
                    && final(self)@ == old(self)@.remove(i).push(old(self)@[i]),
            !holds_key(old(self)@, key) ==> r == -1 && final(self)@ == old(self)@,
    {
        match self.find(key) {
            Some(i) => {
                let value = self.entries[i].1;
                self.refresh(i, value);
                value
            },
            None => -1,
        }
    }

    /// Stores `value` under `key` as the most recently used; a new key in a full
    /// cache first evicts the least recently used one.
    pub fn put(&mut self, key: i32, value: i32)
        requires
            old(self).wf(),
        ensures
            final(self).wf(),
            final(self).capacity() == old(self).capacity(),
            old(self).capacity() == 0 ==> final(self)@ == old(self)@,
            old(self).capacity() > 0 && holds_key(old(self)@, key) ==> exists|i: int|
                0 <= i < old(self)@.len() && #[trigger] old(self)@[i].0 == key && final(self)@ == old(
                    self,
                )@.remove(i).push((key, value)),
            old(self).capacity() > 0 && !holds_key(old(self)@, key) && old(self)@.len() < old(
                self,
            ).capacity() ==> final(self)@ == old(self)@.push((key, value)),
            old(self).capacity() > 0 && !holds_key(old(self)@, key) && old(self)@.len() == old(
                self,
            ).capacity() ==> final(self)@ == old(self)@.remove(0).push((key, value)),
    {
        if self.cap == 0 {
            return;
        }
        match self.find(key) {
            Some(i) => {
                self.refresh(i, value);
            },
            None => {
                let ghost s0 = self.entries@;
                if self.entries.len() >= self.cap {
                    self.entries.remove(0);
                }
                let ghost s1 = self.entries@;
                self.entries.push((key, value));
                proof {
                    let t = self.entries@;
                    assert forall|a: int, b: int| 0 <= a < t.len() && 0 <= b < t.len() && a != b implies t[a].0
                        != t[b].0 by {
                        if s1.len() < s0.len() {
                            if a < s1.len() {
                                assert(t[a] == s0[a + 1]);
                            }
                            if b < s1.len() {
                                assert(t[b] == s0[b + 1]);
                            }
                        } else {
                            if a < s1.len() {
                                assert(t[a] == s0[a]);
                            }
                            if b < s1.len() {
                                assert(t[b] == s0[b]);
                            }
                        }
                    }
                }
            },
        }
    }
}

} // verus!

//! A least-frequently-used cache with a least-recently-used tie-break.
//!
//! Every entry carries an access count and the logical time of its last
//! access. On insertion of a new key into a full cache the entry that is
//! smallest in (frequency, last access) order is evicted.
use vstd::prelude::*;

verus! {

/// What the cache holds for one key, in the abstract.
pub struct Slot {
    pub value: i32,
    pub freq: nat,
    pub last: nat,
}

/// `a` is evicted before `b`: lower frequency, or equal frequency and
/// touched earlier.
pub open spec fn ranks_before(a: Slot, b: Slot) -> bool {
    a.freq < b.freq || (a.freq == b.freq && a.last < b.last)
}

/// `k` is the eviction candidate of `m`: it ranks before every other key.
pub open spec fn is_victim(m: Map<i32, Slot>, k: i32) -> bool {
    &&& m.contains_key(k)
    &&& forall|j: i32| #[trigger] m.contains_key(j) && j != k ==> ranks_before(m[k], m[j])
}

/// The eviction candidate of `m`, where there is one.
pub open spec fn victim(m: Map<i32, Slot>) -> i32 {
    choose|k: i32| is_victim(m, k)
}

/// The state of an abstract cache: a finite map whose frequencies start at one
/// and whose access times are distinct and earlier than `clock`.
pub open spec fn model_wf(m: Map<i32, Slot>, capacity: nat, clock: nat) -> bool {
    &&& m.dom().finite()
    &&& m.dom().len() <= capacity
    &&& forall|k: i32| #[trigger] m.contains_key(k) ==> 1 <= m[k].freq <= clock && m[k].last < clock
    &&& forall|a: i32, b: i32|
        #[trigger] m.contains_key(a) && #[trigger] m.contains_key(b) && a != b ==> m[a].last != m[b].last
}

/// `m` after an access to the present key `k` at time `clock`, storing `value`.
pub open spec fn touch(m: Map<i32, Slot>, k: i32, value: i32, clock: nat) -> Map<i32, Slot> {
    m.insert(k, Slot { value, freq: m[k].freq + 1, last: clock })
}

/// What `get(k)` returns on the abstract cache `m`.
pub open spec fn get_result(m: Map<i32, Slot>, k: i32) -> Option<i32> {
    if m.contains_key(k) {
        Some(m[k].value)
    } else {
        None
    }
}

/// The abstract cache after `get(k)` at time `clock`.
pub open spec fn get_model(m: Map<i32, Slot>, clock: nat, k: i32) -> Map<i32, Slot> {
    if m.contains_key(k) {
        touch(m, k, m[k].value, clock)
    } else {
        m
    }
}

/// The abstract cache after `put(k, v)` at time `clock`.
pub open spec fn put_model(m: Map<i32, Slot>, capacity: nat, clock: nat, k: i32, v: i32) -> Map<
    i32,
    Slot,
> {
    let fresh = Slot { value: v, freq: 1, last: clock };
    if capacity == 0 {
        m
    } else if m.contains_key(k) {
        touch(m, k, v, clock)
    } else if m.dom().len() < capacity {
        m.insert(k, fresh)
    } else {
        m.remove(victim(m)).insert(k, fresh)
    }
}

/// One stored record: key, value, access count and time of last access.
pub struct Entry {
    pub key: i32,
    pub value: i32,
    pub freq: u64,
    pub last: u64,
}

pub open spec fn slot_of(e: Entry) -> Slot {
    Slot { value: e.value, freq: e.freq as nat, last: e.last as nat }
}

pub struct LFUCache {
    capacity: usize,
    entries: Vec<Entry>,
    clock: u64,
    model: Ghost<Map<i32, Slot>>,
}

impl LFUCache {
    /// The keys held and what is held for each.
    pub closed spec fn view(&self) -> Map<i32, Slot> {
        self.model@
    }

    pub closed spec fn capacity(&self) -> nat {
        self.capacity as nat
    }

    /// The logical time of the next access.
    pub closed spec fn clock(&self) -> nat {
        self.clock as nat
    }

    pub closed spec fn wf(&self) -> bool {
        let s = self.entries@;
        &&& model_wf(self.model@, self.capacity as nat, self.clock as nat)
        &&& self.model@.dom().len() == s.len()
        &&& forall|i: int|
            0 <= i < s.len() ==> #[trigger] self.model@.contains_key(s[i].key)
                && self.model@[s[i].key] == slot_of(s[i])
        &&& forall|k: i32|
            #[trigger] self.model@.contains_key(k) ==> exists|i: int|
                0 <= i < s.len() && #[trigger] s[i].key == k
        &&& forall|i: int, j: int| 0 <= i < s.len() && 0 <= j < s.len() && i != j ==> s[i].key != s[j].key
    }

    /// An empty cache that holds at most `capacity` keys.
    pub fn new(capacity: usize) -> (r: Self)
        ensures
            r.wf(),
            r@ == Map::<i32, Slot>::empty(),
            r.capacity() == capacity,
            r.clock() == 0,
    {
        LFUCache { capacity, entries: Vec::new(), clock: 0, model: Ghost(Map::empty()) }
    }

    /// Where `key` is stored, if anywhere.
    fn find(&self, key: i32) -> (r: Option<usize>)
        requires
            self.wf(),
        ensures
            match r {
                Some(i) => i < self.entries@.len() && self.entries@[i as int].key == key,
                None => !self@.contains_key(key),
            },
    {
        let mut i: usize = 0;
        while i < self.entries.len()
            invariant
                self.wf(),
                i <= self.entries@.len(),
                forall|j: int| 0 <= j < i ==> self.entries@[j].key != key,
            decreases self.entries@.len() - i,
        {
            if self.entries[i].key == key {
                return Some(i);
            }
            i = i + 1;
        }
        None
    }

    /// Records an access to the entry at `i`, storing `value` there.
    fn touch_at(&mut self, i: usize, value: i32)
        requires
            old(self).wf(),
            old(self).clock() < u64::MAX,
            i < old(self).entries@.len(),
        ensures
            final(self).wf(),
            final(self).capacity() == old(self).capacity(),
            final(self).clock() == old(self).clock() + 1,
            final(self)@ == touch(old(self)@, old(self).entries@[i as int].key, value, old(self).clock()),
    {
        let ghost m = self.model@;
        let ghost s = self.entries@;
        let key = self.entries[i].key;
        let freq = self.entries[i].freq;
        assert(m.contains_key(key));
        let e = Entry { key, value, freq: freq + 1, last: self.clock };
        self.entries.set(i, e);
        self.model = Ghost(touch(m, key, value, self.clock as nat));
        self.clock = self.clock + 1;
        proof {
            let m2 = self.model@;
            let s2 = self.entries@;
            assert(m2.dom() == m.dom());
            assert forall|k: i32| #[trigger] m2.contains_key(k) implies exists|j: int|
                0 <= j < s2.len() && #[trigger] s2[j].key == k by {
                let j = choose|j: int| 0 <= j < s.len() && #[trigger] s[j].key == k;
                assert(s2[j].key == k);
            }
            assert forall|a: i32, b: i32|
                #[trigger] m2.contains_key(a) && #[trigger] m2.contains_key(b) && a != b
                implies m2[a].last != m2[b].last by {
                if a != key && b != key {
                    assert(m[a].last != m[b].last);
                }
            }
        }
    }

    /// The value stored under `key`, counting the access.
    pub fn get(&mut self, key: i32) -> (r: Option<i32>)
        requires
            old(self).wf(),
            old(self).clock() < u64::MAX,
        ensures
            final(self).wf(),
            final(self).capacity() == old(self).capacity(),
            r == get_result(old(self)@, key),
            final(self)@ == get_model(old(self)@, old(self).clock(), key),
            final(self).clock() == if old(self)@.contains_key(key) {
                old(self).clock() + 1
            } else {
                old(self).clock()
            },
    {
        if self.capacity == 0 {
            return None;
        }
        match self.find(key) {
            Some(i) => {
                let value = self.entries[i].value;
                self.touch_at(i, value);
                Some(value)
            },
            None => None,
        }
    }

    /// Where the eviction candidate is stored; the cache is not empty.
    fn victim_index(&self) -> (r: usize)
        requires
            self.wf(),
            self.entries@.len() > 0,
        ensures
            r < self.entries@.len(),
            is_victim(self@, self.entries@[r as int].key),
    {
        let ghost s = self.entries@;
        let ghost m = self.model@;
        let mut best: usize = 0;
        let mut i: usize = 1;
        while i < self.entries.len()
            invariant
                self.wf(),
                s == self.entries@,
                m == self.model@,
                best < i <= s.len(),
                forall|j: int| 0 <= j < i && j != best ==> ranks_before(slot_of(s[best as int]), slot_of(s[j])),
            decreases s.len() - i,
        {
            let b = &self.entries[best];
            let e = &self.entries[i];
            proof {
                let bi = best as int;
                let ii = i as int;
                assert(s[bi].key != s[ii].key);
                assert(0 <= bi < s.len() && 0 <= ii < s.len());
                assert(self.model@.contains_key(self.entries@[bi].key));
                assert(self.model@.contains_key(self.entries@[ii].key));
                assert(m[s[bi].key].last != m[s[ii].key].last);
            }
            if e.freq < b.freq || (e.freq == b.freq && e.last < b.last) {
                best = i;
            }
            i = i + 1;
        }
        proof {
            let bi = best as int;
            let kb = s[bi].key;
            assert(self.model@.contains_key(self.entries@[bi].key));
            assert forall|k: i32| #[trigger] m.contains_key(k) && k != kb implies ranks_before(m[kb], m[k]) by {
                let j = choose|j: int| 0 <= j < s.len() && #[trigger] s[j].key == k;
                assert(m[s[j].key] == slot_of(s[j]));
                assert(m[kb] == slot_of(s[bi]));
                assert(j != best);
            }
        }
        best
    }

    /// Stores `value` under `key`, counting the access; a new key in a full
    /// cache first evicts the key of lowest frequency, and of those the one
    /// touched least recently.
    pub fn put(&mut self, key: i32, value: i32)
        requires
            old(self).wf(),
            old(self).clock() < u64::MAX,
        ensures
            final(self).wf(),
            final(self).capacity() == old(self).capacity(),
            final(self)@ == put_model(old(self)@, old(self).capacity(), old(self).clock(), key, value),
            final(self)@.dom().len() <= final(self).capacity(),
            old(self).capacity() > 0 && !old(self)@.contains_key(key) && old(self)@.dom().len()
                == old(self).capacity() ==> is_victim(old(self)@, victim(old(self)@)),
            final(self).clock() == if old(self).capacity() == 0 {
                old(self).clock()
            } else {
                old(self).clock() + 1
            },
    {
        if self.capacity == 0 {
            return;
        }
        match self.find(key) {
            Some(i) => {
                self.touch_at(i, value);
            },
            None => {
                let ghost m0 = self.model@;
                if self.entries.len() >= self.capacity {
                    let vi = self.victim_index();
                    let ghost s = self.entries@;
                    let ghost vk = s[vi as int].key;
                    proof {
                        assert forall|x: i32| is_victim(m0, x) implies x == vk by {
                            if x != vk {
                                assert(ranks_before(m0[vk], m0[x]));
                                assert(ranks_before(m0[x], m0[vk]));
                            }
                        }
                        assert(is_victim(m0, victim(m0)));
                    }
                    self.entries.remove(vi);
                    self.model = Ghost(m0.remove(vk));
                    proof {
                        let s2 = self.entries@;
                        let m2 = self.model@;
                        assert forall|i: int| 0 <= i < s2.len() implies #[trigger] m2.contains_key(s2[i].key)
                            && m2[s2[i].key] == slot_of(s2[i]) by {
                            if i < vi {
                                assert(s2[i] == s[i]);
                            } else {
                                assert(s2[i] == s[i + 1]);
                            }
                        }
                        assert forall|k: i32| #[trigger] m2.contains_key(k) implies exists|j: int|
                            0 <= j < s2.len() && #[trigger] s2[j].key == k by {
                            let j = choose|j: int| 0 <= j < s.len() && #[trigger] s[j].key == k;
                            if j < vi {
                                assert(s2[j].key == k);
                            } else {
                                assert(s2[j - 1].key == k);
                            }
                        }
                        assert forall|i: int, j: int| 0 <= i < s2.len() && 0 <= j < s2.len() && i != j
                            implies s2[i].key != s2[j].key by {
                            let i0 = if i < vi { i } else { i + 1 };
                            let j0 = if j < vi { j } else { j + 1 };
                            assert(s2[i] == s[i0] && s2[j] == s[j0]);
                        }
                    }
                }
                let ghost m1 = self.model@;
                let ghost s1 = self.entries@;
                let fresh = Entry { key, value, freq: 1, last: self.clock };
                self.entries.push(fresh);
                self.model = Ghost(m1.insert(key, slot_of(fresh)));
                self.clock = self.clock + 1;
                proof {
                    let s2 = self.entries@;
                    let m2 = self.model@;
                    assert(!m1.contains_key(key));
                    assert(m2.dom() == m1.dom().insert(key));
                    assert forall|i: int| 0 <= i < s2.len() implies #[trigger] m2.contains_key(s2[i].key)
                        && m2[s2[i].key] == slot_of(s2[i]) by {
                        if i < s1.len() {
                            assert(s2[i] == s1[i]);
                        }
                    }
                    assert forall|k: i32| #[trigger] m2.contains_key(k) implies exists|j: int|
                        0 <= j < s2.len() && #[trigger] s2[j].key == k by {
                        if k == key {
                            assert(s2[s1.len() as int].key == k);
                        } else {
                            let j = choose|j: int| 0 <= j < s1.len() && #[trigger] s1[j].key == k;
                            assert(s2[j].key == k);
                        }
                    }
                    assert forall|i: int, j: int| 0 <= i < s2.len() && 0 <= j < s2.len() && i != j
                        implies s2[i].key != s2[j].key by {
                        if i < s1.len() {
                            assert(s2[i] == s1[i]);
                            assert(m1.contains_key(s1[i].key));
                        }
                        if j < s1.len() {
                            assert(s2[j] == s1[j]);
                            assert(m1.contains_key(s1[j].key));
                        }
                    }
                    assert forall|a: i32, b: i32|
                        #[trigger] m2.contains_key(a) && #[trigger] m2.contains_key(b) && a != b
                        implies m2[a].last != m2[b].last by {
                        if a != key && b != key {
                            assert(m1[a].last != m1[b].last);
                        }
                    }
                    assert(m2 == put_model(m0, self.capacity as nat, (self.clock - 1) as nat, key, value));
                }
            },
        }
    }
}


/// A well-formed cache never holds more keys than its capacity.
pub proof fn lemma_capacity_bound(c: &LFUCache)
    requires
        c.wf(),
    ensures
        c@.dom().len() <= c.capacity(),
{
}

/// A cache of capacity zero is empty, and `put` and `get` leave it so.
pub proof fn lemma_zero_capacity_inert(c: &LFUCache, clock: nat, k: i32, v: i32)
    requires
        c.wf(),
        c.capacity() == 0,
    ensures
        c@ == Map::<i32, Slot>::empty(),
        put_model(c@, 0, clock, k, v) == c@,
        get_result(c@, k) == None::<i32>,
        get_model(c@, clock, k) == c@,
{
    assert(c@.dom().len() == 0);
    assert(c@.dom() =~= Set::<i32>::empty());
    assert(c@ =~= Map::<i32, Slot>::empty());
}

/// Right after `put(k, v)` on a cache of non-zero capacity, `get(k)` returns `v`.
pub proof fn lemma_read_your_write(m: Map<i32, Slot>, capacity: nat, clock: nat, k: i32, v: i32)
    requires
        capacity > 0,
    ensures
        get_result(put_model(m, capacity, clock, k, v), k) == Some(v),
{
}

/// A key that is absent stays absent under `get`, which returns nothing for it
/// however often it is asked.
pub proof fn lemma_absent_get_repeats(m: Map<i32, Slot>, clock: nat, k: i32)
    requires
        !m.contains_key(k),
    ensures
        get_result(m, k) == None::<i32>,
        get_model(m, clock, k) == m,
{
}

/// The key that a `put` of a new key into a full cache evicts is absent afterwards.
pub proof fn lemma_evicted_absent(m: Map<i32, Slot>, capacity: nat, clock: nat, k: i32, v: i32)
    requires
        capacity > 0,
        !m.contains_key(k),
        m.dom().len() >= capacity,
        is_victim(m, victim(m)),
    ensures
        !put_model(m, capacity, clock, k, v).contains_key(victim(m)),
        get_result(put_model(m, capacity, clock, k, v), victim(m)) == None::<i32>,
{
}

/// `put` and `get` change the frequency of the accessed key by exactly one and
/// leave every other key as it was.
pub proof fn lemma_frequency_step(m: Map<i32, Slot>, capacity: nat, clock: nat, k: i32, v: i32)
    requires
        capacity > 0,
        m.contains_key(k),
    ensures
        put_model(m, capacity, clock, k, v)[k].freq == m[k].freq + 1,
        get_model(m, clock, k)[k].freq == m[k].freq + 1,
        forall|j: i32| #[trigger] m.contains_key(j) && j != k ==> put_model(m, capacity, clock, k, v)[j] == m[j]
            && get_model(m, clock, k)[j] == m[j],
{
}

} // verus!

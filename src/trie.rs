//! A prefix tree over words of the lowercase letters `a` to `z`.
//!
//! Nodes live in one vector; node 0 is the root. Each node has 26 child slots
//! in a flat table, where 0 marks an absent child (the root is the child of no node).
use vstd::prelude::*;

verus! {

/// The number of child slots of a node, one per letter.
pub const ALPHABET: usize = 26;

/// Every byte of `w` is one of `a` to `z`.
pub open spec fn lowercase(w: Seq<u8>) -> bool {
    forall|i: int| 0 <= i < w.len() ==> 97 <= #[trigger] w[i] <= 122
}

/// Every character of `s` is one of `a` to `z`.
pub open spec fn lowercase_word(s: Seq<char>) -> bool {
    forall|i: int| 0 <= i < s.len() ==> 'a' <= #[trigger] s[i] <= 'z'
}

/// The bytes of a string of ASCII characters.
pub open spec fn bytes_of(s: Seq<char>) -> Seq<u8> {
    s.map_values(|c: char| c as u8)
}

pub open spec fn is_prefix(p: Seq<u8>, w: Seq<u8>) -> bool {
    p.len() <= w.len() && w.subrange(0, p.len() as int) == p
}

pub struct Trie {
    children: Vec<usize>,
    ends: Vec<bool>,
    paths: Ghost<Seq<Seq<u8>>>,
    words: Ghost<Set<Seq<u8>>>,
}

/// The child slot of node `i` for letter `c` in the flat table `children`.
pub open spec fn slot(children: Seq<usize>, i: int, c: int) -> usize {
    children[26 * i + c]
}

/// Some word of `words` begins with `q`.
pub open spec fn leads_to(words: Set<Seq<u8>>, q: Seq<u8>) -> bool {
    exists|w: Seq<u8>| #[trigger] words.contains(w) && is_prefix(q, w)
}

proof fn lemma_slot(i: int, c: int, n: int)
    requires
        0 <= i < n,
        0 <= c < 26,
    ensures
        0 <= 26 * i + c < 26 * n,
        26 * (i + 1) == 26 * i + 26,
{
    assert(0 <= 26 * i + c < 26 * n) by (nonlinear_arith)
        requires
            0 <= i < n,
            0 <= c < 26,
    ;
}

/// The bytes of a word of lowercase letters.
fn letters(word: &String) -> (b: &[u8])
    requires
        lowercase_word(word@),
    ensures
        b@ == bytes_of(word@),
        lowercase(b@),
{
    let s = word.as_str();
    proof {
        vstd::string::is_ascii_spec_bytes(s);
        assert forall|i: int| 0 <= i < s@.len() implies '\0' <= #[trigger] s@[i] <= '\u{7f}' by {
            assert('a' <= word@[i] <= 'z');
        }
        assert(vstd::string::is_ascii(s));
        assert(Seq::new(s@.len(), |i| s@.index(i) as u8) =~= bytes_of(word@));
    }
    s.as_bytes()
}

proof fn lemma_leads(t: &Trie, extra: Seq<u8>)
    requires
        t.wf(),
    ensures
        t.leads(extra),
{
    assert forall|i: int| 0 < i < t.ends@.len() implies leads_to(t.words@.insert(extra), #[trigger] t.paths@[i]) by {
        assert(leads_to(t.words@, t.paths@[i]));
        let u = choose|u: Seq<u8>| #[trigger] t.words@.contains(u) && is_prefix(t.paths@[i], u);
        assert(t.words@.insert(extra).contains(u));
    }
}

impl Trie {
    /// The words inserted so far, as bytes.
    pub closed spec fn words(&self) -> Set<Seq<u8>> {
        self.words@
    }

    /// The number of nodes, the root included.
    pub closed spec fn node_count(&self) -> nat {
        self.ends@.len()
    }

    /// The links between nodes agree with the paths the nodes stand for.
    closed spec fn shape(&self) -> bool {
        let n = self.ends@.len();
        let p = self.paths@;
        &&& n >= 1
        &&& p.len() == n
        &&& self.children@.len() == 26 * n
        &&& p[0] == Seq::<u8>::empty()
        &&& forall|i: int, c: int|
            0 <= i < n && 0 <= c < 26 && #[trigger] slot(self.children@, i, c) != 0 ==> slot(self.children@, i, c) < n
                && p[slot(self.children@, i, c) as int] == p[i].push((97 + c) as u8)
        &&& forall|i: int, c: int, j: int|
            0 <= i < n && 0 <= c < 26 && #[trigger] slot(self.children@, i, c) == 0 && 0 <= j < n ==> #[trigger] p[j]
                != p[i].push((97 + c) as u8)
        &&& forall|i: int, j: int| 0 <= i < n && 0 <= j < n && i != j ==> p[i] != p[j]
        &&& forall|x: int| 0 < x < n ==> exists|y: int| 0 <= y < n && #[trigger] p[y] == (#[trigger] p[x]).drop_last()
    }

    /// The end marks and the paths agree with the words.
    closed spec fn marks(&self) -> bool {
        let n = self.ends@.len();
        let p = self.paths@;
        &&& forall|i: int| 0 <= i < n ==> (#[trigger] self.ends@[i] <==> self.words@.contains(p[i]))
        &&& forall|w: Seq<u8>, q: Seq<u8>|
            #[trigger] self.words@.contains(w) && #[trigger] is_prefix(q, w) ==> exists|i: int|
                0 <= i < n && #[trigger] p[i] == q
    }

    /// Every node but the root leads to a word, or to `extra`.
    closed spec fn leads(&self, extra: Seq<u8>) -> bool {
        forall|i: int| 0 < i < self.ends@.len() ==> leads_to(self.words@.insert(extra), #[trigger] self.paths@[i])
    }

    pub closed spec fn wf(&self) -> bool {
        let n = self.ends@.len();
        let p = self.paths@;
        &&& self.shape()
        &&& self.marks()
        &&& forall|i: int| 0 < i < n ==> leads_to(self.words@, #[trigger] p[i])
    }

    /// An empty trie: the root alone.
    pub fn new() -> (r: Self)
        ensures
            r.wf(),
            r.words() == Set::<Seq<u8>>::empty(),
    {
        let mut children: Vec<usize> = Vec::new();
        let mut k: usize = 0;
        while k < ALPHABET
            invariant
                k <= 26,
                children@.len() == k,
                forall|j: int| 0 <= j < k ==> children@[j] == 0,
            decreases 26 - k,
        {
            children.push(0);
            k = k + 1;
        }
        let mut ends: Vec<bool> = Vec::new();
        ends.push(false);
        let ghost root_paths = seq![Seq::<u8>::empty()];
        let r = Trie { children, ends, paths: Ghost(root_paths), words: Ghost(Set::empty()) };
        proof {
            assert forall|i: int, c: int| 0 <= i < 1 && 0 <= c < 26 implies #[trigger] slot(r.children@, i, c) == 0 by {
                assert(i == 0);
            }
            assert forall|i: int, c: int, j: int|
                0 <= i < 1 && 0 <= c < 26 && #[trigger] slot(r.children@, i, c) == 0 && 0 <= j < 1 implies #[trigger] r.paths@[j]
                    != r.paths@[i].push((97 + c) as u8) by {
                assert(r.paths@[i].push((97 + c) as u8).len() == 1);
            }
        }
        r
    }

    /// Adds a node below `node` for the letter of slot `c`, on the way to
    /// inserting `target`.
    fn add_node(&mut self, node: usize, c: usize, target: Ghost<Seq<u8>>) -> (j: usize)
        requires
            old(self).shape(),
            old(self).marks(),
            old(self).leads(target@),
            node < old(self).ends@.len(),
            c < 26,
            slot(old(self).children@, node as int, c as int) == 0,
            is_prefix(old(self).paths@[node as int].push((97 + c) as u8), target@),
            26 * (old(self).ends@.len() + 1) <= usize::MAX,
        ensures
            final(self).shape(),
            final(self).marks(),
            final(self).leads(target@),
            final(self).words@ == old(self).words@,
            j == old(self).ends@.len(),
            final(self).paths@ == old(self).paths@.push(old(self).paths@[node as int].push((97 + c) as u8)),
            slot(final(self).children@, node as int, c as int) == j,
    {
        let ghost p = self.paths@;
        let ghost n = self.ends@.len() as int;
        let ghost ch = self.children@;
        let ghost np = p[node as int].push((97 + c) as u8);
        let j = self.ends.len();
        proof {
            lemma_slot(node as int, c as int, n);
        }
        let mut k: usize = 0;
        while k < ALPHABET
            invariant
                k <= 26,
                self.children@.len() == 26 * n + k,
                self.ends@ == old(self).ends@,
                self.paths@ == p,
                self.words@ == old(self).words@,
                n == self.ends@.len(),
                26 * (n + 1) <= usize::MAX,
                forall|x: int| 0 <= x < 26 * n ==> self.children@[x] == ch[x],
                forall|x: int| 26 * n <= x < 26 * n + k ==> self.children@[x] == 0,
            decreases 26 - k,
        {
            self.children.push(0);
            k = k + 1;
        }
        self.ends.push(false);
        self.paths = Ghost(p.push(np));
        self.children.set(ALPHABET * node + c, j);
        proof {
            let p2 = self.paths@;
            let n2 = n + 1;
            assert(p2[n] == np);
            assert forall|i: int| 0 <= i < n implies #[trigger] p2[i] == p[i] by {}
            // links out of old nodes are kept but for the new one; the new node has none
            assert forall|i: int, d: int| 0 <= i < n2 && 0 <= d < 26 implies #[trigger] slot(self.children@, i, d) == if i == node && d == c {
                j
            } else if i < n {
                ch[26 * i + d]
            } else {
                0
            } by {
                if i < n {
                    lemma_slot(i, d, n);
                    if i != node || d != c {
                        assert(26 * i + d != 26 * node + c) by (nonlinear_arith)
                            requires
                                0 <= i,
                                0 <= d < 26,
                                0 <= c < 26,
                                i != node || d != c,
                        ;
                    }
                } else {
                    assert(26 * i + d >= 26 * n) by (nonlinear_arith)
                        requires
                            i == n,
                            0 <= d,
                    ;
                    assert(26 * i + d < 26 * n + 26) by (nonlinear_arith)
                        requires
                            i == n,
                            d < 26,
                    ;
                }
            }
            assert forall|x: int| 0 <= x < n implies #[trigger] p[x] != np by {
                assert(ch[26 * node + c] == 0);
            }
            assert forall|i: int, d: int|
                0 <= i < n2 && 0 <= d < 26 && #[trigger] slot(self.children@, i, d) != 0 implies slot(self.children@, i, d) < n2
                    && p2[slot(self.children@, i, d) as int] == p2[i].push((97 + d) as u8) by {
                if i == node && d == c {
                    assert(p2[i] == p[i]);
                } else if i < n {
                    assert(ch[26 * i + d] == slot(self.children@, i, d));
                    assert(slot(old(self).children@, i, d) == ch[26 * i + d]);
                    assert(p2[i] == p[i]);
                    assert(p2[slot(self.children@, i, d) as int] == p[slot(self.children@, i, d) as int]);
                }
            }
            assert forall|i: int, d: int, x: int|
                0 <= i < n2 && 0 <= d < 26 && #[trigger] slot(self.children@, i, d) == 0 && 0 <= x < n2 implies #[trigger] p2[x]
                    != p2[i].push((97 + d) as u8) by {
                if i == n {
                    if p2[x] == np.push((97 + d) as u8) {
                        if x == n {
                            assert(np.len() == np.push((97 + d) as u8).len());
                        } else {
                            assert(p2[x].drop_last() =~= np);
                            assert(x > 0);
                            let y = choose|y: int| 0 <= y < n && #[trigger] p[y] == (#[trigger] p[x]).drop_last();
                            assert(p[y] == np);
                        }
                    }
                } else {
                    assert(ch[26 * i + d] == 0);
                    assert(slot(old(self).children@, i, d) == ch[26 * i + d]);
                    assert(p2[i] == p[i]);
                    if x < n {
                        assert(p2[x] == p[x]);
                    }
                    if x == n && np == p2[i].push((97 + d) as u8) {
                        assert(np.drop_last() =~= p[node as int]);
                        assert(p2[i].push((97 + d) as u8).drop_last() =~= p[i]);
                        assert(np.last() == (97 + c) as u8);
                        assert(p2[i].push((97 + d) as u8).last() == (97 + d) as u8);
                    }
                }
            }
            assert forall|a: int, b: int| 0 <= a < n2 && 0 <= b < n2 && a != b implies p2[a] != p2[b] by {}
            assert forall|x: int| 0 < x < n2 implies exists|y: int| 0 <= y < n2 && #[trigger] p2[y] == (#[trigger] p2[x]).drop_last() by {
                if x == n {
                    assert(np.drop_last() =~= p[node as int]);
                    assert(p2[node as int] == p2[x].drop_last());
                } else {
                    let y = choose|y: int| 0 <= y < n && #[trigger] p[y] == (#[trigger] p[x]).drop_last();
                    assert(p2[y] == p2[x].drop_last());
                }
            }
            assert forall|i: int| 0 <= i < n2 implies (#[trigger] self.ends@[i] <==> self.words@.contains(p2[i])) by {
                if i < n {
                    assert(self.ends@[i] == old(self).ends@[i]);
                    assert(p2[i] == p[i]);
                } else if self.words@.contains(np) {
                    assert(np.subrange(0, np.len() as int) =~= np);
                    assert(is_prefix(np, np));
                    let x = choose|x: int| 0 <= x < n && #[trigger] p[x] == np;
                    assert(p[x] != np);
                }
            }
            assert forall|w: Seq<u8>, q: Seq<u8>|
                #[trigger] self.words@.contains(w) && #[trigger] is_prefix(q, w) implies exists|i: int|
                    0 <= i < n2 && #[trigger] p2[i] == q by {
                let i = choose|i: int| 0 <= i < n && #[trigger] p[i] == q;
                assert(p2[i] == q);
            }
            assert forall|i: int| 0 < i < n2 implies leads_to(self.words@.insert(target@), #[trigger] p2[i]) by {
                if i == n {
                    assert(self.words@.insert(target@).contains(target@));
                } else {
                    assert(p2[i] == p[i]);
                    assert(leads_to(old(self).words@.insert(target@), old(self).paths@[i]));
                }
            }
        }
        j
    }

    /// Adds `word`.
    pub fn insert(&mut self, word: String)
        requires
            old(self).wf(),
            lowercase_word(word@),
            26 * (old(self).node_count() + word@.len() + 1) <= usize::MAX,
        ensures
            final(self).wf(),
            final(self).words() == old(self).words().insert(bytes_of(word@)),
            final(self).node_count() <= old(self).node_count() + word@.len(),
    {
        let w = letters(&word);
        let ghost target = w@;
        let ghost n0 = self.ends@.len();
        proof {
            lemma_leads(self, target);
            assert(w@.subrange(0, 0) =~= Seq::<u8>::empty());
            assert(self.paths@[0] == w@.subrange(0, 0));
            assert(w@.len() == word@.len());
        }
        let mut node: usize = 0;
        let mut k: usize = 0;
        while k < w.len()
            invariant
                self.shape(),
                self.marks(),
                self.leads(target),
                self.words@ == old(self).words@,
                lowercase(w@),
                w@ == target,
                k <= w@.len(),
                node < self.ends@.len(),
                self.paths@[node as int] == w@.subrange(0, k as int),
                self.ends@.len() <= n0 + k,
                26 * (n0 + w@.len() + 1) <= usize::MAX,
                forall|k2: int|
                    #![trigger w@.subrange(0, k2)]
                    0 <= k2 <= k ==> exists|i: int|
                        0 <= i < self.ends@.len() && #[trigger] self.paths@[i] == w@.subrange(0, k2),
            decreases w@.len() - k,
        {
            let c = (w[k] - 97) as usize;
            let ghost p = self.paths@;
            let ghost n = self.ends@.len();
            proof {
                lemma_slot(node as int, c as int, n as int);
                assert(is_prefix(p[node as int].push((97 + c) as u8), target)) by {
                    assert(target.subrange(0, k + 1) =~= p[node as int].push((97 + c) as u8));
                }
            }
            let total = self.children.len();
            assert(ALPHABET * node + c < total);
            let found = self.children[ALPHABET * node + c];
            assert(found == slot(self.children@, node as int, c as int));
            let next = if found == 0 {
                self.add_node(node, c, Ghost(target))
            } else {
                found
            };
            proof {
                let p2 = self.paths@;
                assert(p2[next as int] == p[node as int].push((97 + c) as u8));
                assert(w@.subrange(0, k + 1) =~= p[node as int].push((97 + c) as u8));
                assert forall|k2: int|
                    #![trigger w@.subrange(0, k2)]
                    0 <= k2 <= k + 1 implies exists|i: int|
                        0 <= i < self.ends@.len() && #[trigger] self.paths@[i] == w@.subrange(0, k2) by {
                    if k2 == k + 1 {
                        assert(p2[next as int] == w@.subrange(0, k2));
                    } else {
                        let i = choose|i: int| 0 <= i < n && #[trigger] p[i] == w@.subrange(0, k2);
                        assert(p2[i] == p[i]);
                    }
                }
            }
            node = next;
            k = k + 1;
        }
        let ghost p = self.paths@;
        let ghost words0 = self.words@;
        proof {
            assert(w@.subrange(0, k as int) =~= w@);
        }
        let ghost ends0 = self.ends@;
        self.ends.set(node, true);
        self.words = Ghost(words0.insert(target));
        proof {
            let n = self.ends@.len();
            assert(n == ends0.len());
            assert forall|i: int| 0 <= i < n && i != node implies self.ends@[i] == ends0[i] by {}
            assert forall|i: int| 0 <= i < n implies (#[trigger] self.ends@[i] <==> self.words@.contains(p[i])) by {
                if i != node {
                    assert(p[i] != p[node as int]);
                }
            }
            assert forall|u: Seq<u8>, q: Seq<u8>|
                #[trigger] self.words@.contains(u) && #[trigger] is_prefix(q, u) implies exists|i: int|
                    0 <= i < n && #[trigger] p[i] == q by {
                if u == target {
                    assert(w@.subrange(0, q.len() as int) == q);
                } else {
                    assert(words0.contains(u));
                }
            }
            assert forall|i: int| 0 < i < n implies leads_to(self.words@, #[trigger] p[i]) by {
                assert(leads_to(words0.insert(target), p[i]));
            }
            assert(self.shape());
        }
    }

    /// Follows `w` from the root as far as the trie goes: the node reached and
    /// how many bytes of `w` lead to it.
    fn walk(&self, w: &[u8]) -> (r: (usize, usize))
        requires
            self.wf(),
            lowercase(w@),
        ensures
            r.1 <= w@.len(),
            r.0 < self.ends@.len(),
            self.paths@[r.0 as int] == w@.subrange(0, r.1 as int),
            r.1 < w@.len() ==> slot(self.children@, r.0 as int, w@[r.1 as int] - 97) == 0,
    {
        let mut node: usize = 0;
        let mut k: usize = 0;
        assert(w@.subrange(0, 0) =~= Seq::<u8>::empty());
        while k < w.len()
            invariant
                self.wf(),
                lowercase(w@),
                k <= w@.len(),
                node < self.ends@.len(),
                self.paths@[node as int] == w@.subrange(0, k as int),
            decreases w@.len() - k,
        {
            let c = (w[k] - 97) as usize;
            proof {
                lemma_slot(node as int, c as int, self.ends@.len() as int);
            }
            let total = self.children.len();
            assert(ALPHABET * node + c < total);
            let next = self.children[ALPHABET * node + c];
            if next == 0 {
                return (node, k);
            }
            proof {
                assert(next == slot(self.children@, node as int, c as int));
                assert(w@.subrange(0, k + 1) =~= w@.subrange(0, k as int).push(w@[k as int]));
            }
            node = next;
            k = k + 1;
        }
        (node, k)
    }

    /// Whether `word` was inserted.
    pub fn search(&self, word: String) -> (r: bool)
        requires
            self.wf(),
            lowercase_word(word@),
        ensures
            r == self.words().contains(bytes_of(word@)),
    {
        let w = letters(&word);
        let (node, k) = self.walk(w);
        if k < w.len() {
            proof {
                let q = w@.subrange(0, k + 1);
                if self.words@.contains(w@) {
                    assert(is_prefix(q, w@));
                    let j = choose|j: int| 0 <= j < self.ends@.len() && #[trigger] self.paths@[j] == q;
                    assert(q =~= w@.subrange(0, k as int).push((97 + (w@[k as int] - 97)) as u8));
                    assert(slot(self.children@, node as int, w@[k as int] - 97) == 0);
                }
            }
            false
        } else {
            proof {
                assert(w@.subrange(0, k as int) =~= w@);
            }
            self.ends[node]
        }
    }

    /// Whether some inserted word begins with `prefix`.
    pub fn starts_with(&self, prefix: String) -> (r: bool)
        requires
            self.wf(),
            lowercase_word(prefix@),
        ensures
            r == (prefix@.len() == 0 || exists|w: Seq<u8>|
                #[trigger] self.words().contains(w) && is_prefix(bytes_of(prefix@), w)),
    {
        let w = letters(&prefix);
        let (node, k) = self.walk(w);
        if k < w.len() {
            proof {
                let q = w@.subrange(0, k + 1);
                assert forall|u: Seq<u8>| #[trigger] self.words@.contains(u) implies !is_prefix(w@, u) by {
                    if is_prefix(w@, u) {
                        assert(u.subrange(0, q.len() as int) =~= q);
                        assert(is_prefix(q, u));
                        let j = choose|j: int| 0 <= j < self.ends@.len() && #[trigger] self.paths@[j] == q;
                        assert(q =~= w@.subrange(0, k as int).push((97 + (w@[k as int] - 97)) as u8));
                        assert(slot(self.children@, node as int, w@[k as int] - 97) == 0);
                    }
                }
            }
            false
        } else {
            proof {
                assert(w@.subrange(0, k as int) =~= w@);
                assert(bytes_of(prefix@).len() == prefix@.len());
                if k > 0 {
                    assert(node != 0);
                    assert(0 < node < self.ends@.len());
                    assert(leads_to(self.words@, self.paths@[node as int]));
                    let u = choose|u: Seq<u8>| #[trigger] self.words@.contains(u) && is_prefix(self.paths@[node as int], u);
                    assert(self.words@.contains(u) && is_prefix(w@, u));
                    assert(self.words().contains(u) && is_prefix(bytes_of(prefix@), u));
                }
            }
            true
        }
    }
}

} // verus!

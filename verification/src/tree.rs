//! The prefix tree itself: one node type, used both for the root and for
//! every subtree, together with the operations that walk it.

use vstd::prelude::*;

use crate::key::TrieKey;

verus! {

/// A node of a prefix tree, and the tree itself: the tree is simply its
/// root node.
///
/// `value` is present iff some sequence ending exactly at this node was
/// inserted and not yet removed. `subtrees` maps one key element to the
/// subtree reached by consuming it; its keys are unique and their order
/// carries no meaning.
#[derive(Debug, PartialEq, Eq)]
pub struct PrefixTree<K, V> {
    pub value: Option<V>,
    pub subtrees: Vec<(K, PrefixTree<K, V>)>,
}

impl<K, V> PrefixTree<K, V> {
    /// Index of the first entry of `s` whose key equals `k`, or `-1` if no
    /// entry has that key.
    pub open spec fn key_index(s: Seq<(K, PrefixTree<K, V>)>, k: K) -> int
        decreases s.len(),
    {
        if s.len() == 0 {
            -1
        } else if s[0].0 == k {
            0
        } else {
            let rest = Self::key_index(s.drop_first(), k);
            if rest < 0 {
                -1
            } else {
                rest + 1
            }
        }
    }

    /// The subtree reached by consuming the key element `k`, if any.
    pub open spec fn spec_child(self, k: K) -> Option<PrefixTree<K, V>> {
        let i = Self::key_index(self.subtrees@, k);
        if i >= 0 {
            Some(self.subtrees@[i].1)
        } else {
            None
        }
    }

    /// The value stored for the exact sequence `s`, if any: walk the tree
    /// one element at a time and read the final node's value.
    pub open spec fn spec_get(self, s: Seq<K>) -> Option<V>
        decreases s.len(),
    {
        if s.len() == 0 {
            self.value
        } else {
            match self.spec_child(s[0]) {
                Some(child) => child.spec_get(s.drop_first()),
                None => None,
            }
        }
    }

    /// A node is structurally empty when it holds no value and has no
    /// subtrees. Such a node stores nothing at all.
    pub open spec fn spec_is_empty(self) -> bool {
        self.value is None && self.subtrees@.len() == 0
    }

    /// Well-formedness: the keys of each node's subtree list are unique,
    /// and no node below the root is structurally empty (an empty node
    /// would be unreachable garbage and must have been pruned).
    pub open spec fn wf(self) -> bool
        decreases self,
    {
        &&& (forall|i: int, j: int|
            0 <= i < j < self.subtrees@.len() ==> (#[trigger] self.subtrees@[i]).0 != (
            #[trigger] self.subtrees@[j]).0)
        &&& (forall|i: int|
            0 <= i < self.subtrees@.len() ==> !(#[trigger] self.subtrees@[i]).1.spec_is_empty())
        &&& (forall|i: int|
            0 <= i < self.subtrees@.len() ==> (#[trigger] self.subtrees@[i]).1.wf())
    }

    /// The number of elements of `s` consumed by a shortest-prefix walk
    /// that succeeds, or `None` if the walk fails: at each node a present
    /// value wins before any further element is consumed.
    pub open spec fn shortest_prefix(self, s: Seq<K>) -> Option<int>
        decreases s.len(),
    {
        if self.value is Some {
            Some(0)
        } else if s.len() == 0 {
            None
        } else {
            match self.spec_child(s[0]) {
                Some(child) => match child.shortest_prefix(s.drop_first()) {
                    Some(n) => Some(n + 1),
                    None => None,
                },
                None => None,
            }
        }
    }
}

impl<K, V> PrefixTree<K, V> {
    /// `key_index` finds the first entry with the given key: it stays inside
    /// the list, it lands on the key it was asked for, and no earlier entry
    /// carries that key; when it fails, no entry does.
    proof fn lemma_key_index_spec(s: Seq<(K, PrefixTree<K, V>)>, k: K)
        ensures
            Self::key_index(s, k) == -1 || 0 <= Self::key_index(s, k) < s.len(),
            Self::key_index(s, k) >= 0 ==> s[Self::key_index(s, k)].0 == k,
            Self::key_index(s, k) >= 0 ==> (forall|m: int|
                0 <= m < Self::key_index(s, k) ==> (#[trigger] s[m]).0 != k),
            Self::key_index(s, k) == -1 ==> (forall|m: int|
                0 <= m < s.len() ==> (#[trigger] s[m]).0 != k),
        decreases s.len(),
    {
        if s.len() > 0 && s[0].0 != k {
            Self::lemma_key_index_spec(s.drop_first(), k);
            let idx = Self::key_index(s, k);
            if idx >= 0 {
                assert forall|m: int| 0 <= m < idx implies (#[trigger] s[m]).0 != k by {
                    if m >= 1 {
                        assert(s[m] == s.drop_first()[m - 1]);
                    }
                }
            } else {
                assert forall|m: int| 0 <= m < s.len() implies (#[trigger] s[m]).0 != k by {
                    if m >= 1 {
                        assert(s[m] == s.drop_first()[m - 1]);
                    }
                }
            }
        }
    }

    /// Conversely, an entry that matches the key and is preceded by no
    /// match is exactly the one `key_index` finds.
    proof fn lemma_key_index_first_match(s: Seq<(K, PrefixTree<K, V>)>, k: K, i: int)
        requires
            0 <= i < s.len(),
            s[i].0 == k,
            forall|m: int| 0 <= m < i ==> (#[trigger] s[m]).0 != k,
        ensures
            Self::key_index(s, k) == i,
        decreases s.len(),
    {
        if i > 0 {
            Self::lemma_key_index_first_match(s.drop_first(), k, i - 1);
            assert(forall|m: int|
                1 <= m < s.len() ==> s[m] == (#[trigger] s.drop_first()[m - 1]));
        }
    }

    /// Appending an entry leaves every earlier key where it was: the new
    /// entry is found only for a key that was absent before.
    proof fn lemma_key_index_push(s: Seq<(K, PrefixTree<K, V>)>, e: (K, PrefixTree<K, V>), k: K)
        ensures
            Self::key_index(s.push(e), k) == (if Self::key_index(s, k) >= 0 {
                Self::key_index(s, k)
            } else if e.0 == k {
                s.len() as int
            } else {
                -1
            }),
    {
        Self::lemma_key_index_spec(s, k);
        Self::lemma_key_index_spec(s.push(e), k);
        let i = Self::key_index(s, k);
        if i >= 0 {
            Self::lemma_key_index_first_match(s.push(e), k, i);
        } else if e.0 == k {
            Self::lemma_key_index_first_match(s.push(e), k, s.len() as int);
        } else {
            let ip = Self::key_index(s.push(e), k);
            if ip >= 0 {
                assert(s.push(e)[ip] == (if ip < s.len() {
                    s[ip]
                } else {
                    e
                }));
            }
        }
    }

    /// `key_index` reads only the keys: two entry lists with pointwise
    /// equal keys agree on every lookup.
    proof fn lemma_key_index_same_keys(
        a: Seq<(K, PrefixTree<K, V>)>,
        b: Seq<(K, PrefixTree<K, V>)>,
        k: K,
    )
        requires
            a.len() == b.len(),
            forall|m: int| 0 <= m < a.len() ==> (#[trigger] a[m]).0 == (#[trigger] b[m]).0,
        ensures
            Self::key_index(a, k) == Self::key_index(b, k),
    {
        Self::lemma_key_index_spec(a, k);
        Self::lemma_key_index_spec(b, k);
        let ia = Self::key_index(a, k);
        let ib = Self::key_index(b, k);
        if ia >= 0 && ib >= 0 && ia != ib {
            if ia < ib {
                assert(b[ia].0 == k);
            } else {
                assert(a[ib].0 == k);
            }
        } else if ia >= 0 && ib == -1 {
            assert(b[ia].0 == k);
        } else if ib >= 0 && ia == -1 {
            assert(a[ib].0 == k);
        }
    }

    /// Detaching one entry shifts the later ones left; a key different
    /// from the detached entry's is found exactly where the shift puts it.
    proof fn lemma_key_index_remove(s: Seq<(K, PrefixTree<K, V>)>, j: int, k: K)
        requires
            0 <= j < s.len(),
            s[j].0 != k,
        ensures
            Self::key_index(s.remove(j), k) == (if Self::key_index(s, k) == -1 {
                -1
            } else if Self::key_index(s, k) < j {
                Self::key_index(s, k)
            } else {
                Self::key_index(s, k) - 1
            }),
    {
        Self::lemma_key_index_spec(s, k);
        Self::lemma_key_index_spec(s.remove(j), k);
        s.remove_ensures(j);
        let i = Self::key_index(s, k);
        if i == -1 {
            let ir = Self::key_index(s.remove(j), k);
            if ir >= 0 {
                if ir < j {
                    assert(s.remove(j)[ir] == s[ir]);
                } else {
                    assert(s.remove(j)[ir] == s[ir + 1]);
                }
            }
        } else if i < j {
            assert forall|m: int| 0 <= m < i implies (#[trigger] s.remove(j)[m]).0 != k by {
                assert(s.remove(j)[m] == s[m]);
            }
            assert(s.remove(j)[i] == s[i]);
            Self::lemma_key_index_first_match(s.remove(j), k, i);
        } else {
            assert forall|m: int| 0 <= m < i - 1 implies (#[trigger] s.remove(j)[m]).0 != k by {
                if m < j {
                    assert(s.remove(j)[m] == s[m]);
                } else {
                    assert(s.remove(j)[m] == s[m + 1]);
                }
            }
            assert(s.remove(j)[i - 1] == s[i]);
            Self::lemma_key_index_first_match(s.remove(j), k, i - 1);
        }
    }

    /// A structurally empty node stores nothing for any sequence.
    proof fn lemma_empty_spec_get(self, s: Seq<K>)
        requires
            self.spec_is_empty(),
        ensures
            self.spec_get(s) is None,
    {
    }

    /// The walks' intermediate shape: `cur` is `prev` with a subtree entry
    /// for key `k` in place at position `j` (either already there, or newly
    /// created and still empty), storing the same values as `prev`
    /// everywhere, with unique keys and every other subtree well formed and
    /// nonempty.
    spec fn child_slot_ready(prev: Self, cur: Self, k: K, j: int) -> bool {
        &&& 0 <= j < cur.subtrees@.len()
        &&& Self::key_index(cur.subtrees@, k) == j
        &&& cur.subtrees@[j].0 == k
        &&& cur.value == prev.value
        &&& (forall|t: Seq<K>| #[trigger] cur.spec_get(t) == prev.spec_get(t))
        &&& (forall|m: int, n: int|
            0 <= m < n < cur.subtrees@.len() ==> (#[trigger] cur.subtrees@[m]).0 != (
            #[trigger] cur.subtrees@[n]).0)
        &&& (forall|m: int| 0 <= m < cur.subtrees@.len() ==> (#[trigger] cur.subtrees@[m]).1.wf())
        &&& (forall|m: int|
            0 <= m < cur.subtrees@.len() && m != j ==> !(
            #[trigger] cur.subtrees@[m]).1.spec_is_empty())
    }

    /// What a shortest-prefix walk means on the tree's map: when it
    /// succeeds after consuming `n` elements, the consumed prefix is a
    /// stored key and no shorter prefix is; when it fails, no prefix of the
    /// whole query is a stored key.
    pub proof fn lemma_shortest_prefix_spec(self, s: Seq<K>)
        ensures
            match self.shortest_prefix(s) {
                Some(n) => 0 <= n <= s.len() && self.spec_get(s.take(n)) is Some && (forall|
                    m: int,
                |
                    0 <= m < n ==> #[trigger] self.spec_get(s.take(m)) is None),
                None => forall|m: int|
                    0 <= m <= s.len() ==> #[trigger] self.spec_get(s.take(m)) is None,
            },
        decreases s.len(),
    {
        if self.value is Some {
            assert(s.take(0) =~= Seq::<K>::empty());
        } else if s.len() == 0 {
            assert(s.take(0) =~= s);
        } else {
            match self.spec_child(s[0]) {
                Some(child) => {
                    child.lemma_shortest_prefix_spec(s.drop_first());
                    assert forall|m: int| 1 <= m <= s.len() implies #[trigger] self.spec_get(
                        s.take(m),
                    ) == child.spec_get(s.drop_first().take(m - 1)) by {
                        assert(s.take(m)[0] == s[0]);
                        assert(s.take(m).drop_first() =~= s.drop_first().take(m - 1));
                    }
                    assert(s.take(0) =~= Seq::<K>::empty());
                },
                None => {
                    assert forall|m: int| 0 <= m <= s.len() implies #[trigger] self.spec_get(
                        s.take(m),
                    ) is None by {
                        if m == 0 {
                            assert(s.take(0) =~= Seq::<K>::empty());
                        } else {
                            assert(s.take(m)[0] == s[0]);
                        }
                    }
                },
            }
        }
    }

    /// A successful shortest-prefix walk consumes at most the whole query.
    pub proof fn lemma_shortest_prefix_bounds(self, s: Seq<K>)
        ensures
            self.shortest_prefix(s) matches Some(n) ==> 0 <= n <= s.len(),
        decreases s.len(),
    {
        if self.value is None && s.len() > 0 {
            match self.spec_child(s[0]) {
                Some(child) => {
                    child.lemma_shortest_prefix_bounds(s.drop_first());
                },
                None => {},
            }
        }
    }
}

impl<K: TrieKey, V> Default for PrefixTree<K, V> {
    /// The default tree is the empty tree.
    fn default() -> (t: Self)
        ensures
            t.wf(),
            t@ == Map::<Seq<K>, V>::empty(),
            t.spec_is_empty(),
    {
        Self::new()
    }
}

impl<K, V> View for PrefixTree<K, V> {
    type V = Map<Seq<K>, V>;

    /// The tree viewed as the finite map it stores: each sequence for which
    /// an exact-match walk finds a value is mapped to that value.
    open spec fn view(&self) -> Map<Seq<K>, V> {
        Map::new(|s: Seq<K>| self.spec_get(s) is Some, |s: Seq<K>| self.spec_get(s).unwrap())
    }
}

impl<K: TrieKey, V> PrefixTree<K, V> {
    /// Creates an empty prefix tree: no value at the root, no subtrees.
    pub fn new() -> (t: Self)
        ensures
            t.wf(),
            t@ == Map::<Seq<K>, V>::empty(),
            t.spec_is_empty(),
    {
        let t = PrefixTree { value: None::<V>, subtrees: Vec::new() };
        proof {
            assert(t@ =~= Map::<Seq<K>, V>::empty());
        }
        t
    }

    /// Position of the subtree entry for the key element `k`, if one exists.
    fn find_child(&self, k: &K) -> (r: Option<usize>)
        ensures
            match r {
                Some(j) => j < self.subtrees@.len() && Self::key_index(self.subtrees@, *k)
                    == j as int,
                None => Self::key_index(self.subtrees@, *k) == -1,
            },
    {
        let mut j: usize = 0;
        while j < self.subtrees.len()
            invariant
                j <= self.subtrees@.len(),
                forall|m: int| 0 <= m < j ==> (#[trigger] self.subtrees@[m]).0 != *k,
            decreases self.subtrees@.len() - j,
        {
            if self.subtrees[j].0.key_eq(k) {
                proof {
                    Self::lemma_key_index_first_match(self.subtrees@, *k, j as int);
                }
                return Some(j);
            }
            j += 1;
        }
        proof {
            Self::lemma_key_index_spec(self.subtrees@, *k);
        }
        None
    }

    /// Exact-match walk from position `i` of the query: descend one subtree
    /// per element and read the final node's value.
    fn get_from(&self, s: &[K], i: usize) -> (r: Option<&V>)
        requires
            i <= s@.len(),
        ensures
            r is Some <==> self.spec_get(s@.skip(i as int)) is Some,
            r matches Some(v) ==> *v == self.spec_get(s@.skip(i as int)).unwrap(),
        decreases s@.len() - i,
    {
        if i == s.len() {
            proof {
                assert(s@.skip(i as int) =~= Seq::<K>::empty());
            }
            match &self.value {
                Some(v) => Some(v),
                None => None,
            }
        } else {
            proof {
                assert(s@.skip(i as int)[0] == s@[i as int]);
                assert(s@.skip(i as int).drop_first() =~= s@.skip(i as int + 1));
            }
            match self.find_child(&s[i]) {
                Some(j) => self.subtrees[j].1.get_from(s, i + 1),
                None => None,
            }
        }
    }

    /// Returns an immutable reference to the value stored for the exact
    /// match of the given sequence, or `None` if no value is stored there.
    pub fn get_exact_match(&self, sequence: &[K]) -> (r: Option<&V>)
        ensures
            r == (if self@.contains_key(sequence@) {
                Some(&self@[sequence@])
            } else {
                None::<&V>
            }),
    {
        proof {
            assert(sequence@.skip(0) =~= sequence@);
        }
        self.get_from(sequence, 0)
    }

    /// Finds the subtree entry for the key element `k`, creating a fresh
    /// empty entry at the end of the list if none exists yet, and returns
    /// its position. Stored values are untouched either way.
    fn prepare_child(&mut self, k: &K) -> (j: usize)
        requires
            old(self).wf(),
        ensures
            Self::child_slot_ready(*old(self), *final(self), *k, j as int),
    {
        match self.find_child(k) {
            Some(j) => {
                proof {
                    Self::lemma_key_index_spec(self.subtrees@, *k);
                }
                j
            },
            None => {
                proof {
                    Self::lemma_key_index_spec(self.subtrees@, *k);
                }
                let kc = k.key_clone();
                let fresh = PrefixTree { value: None::<V>, subtrees: Vec::new() };
                self.subtrees.push((kc, fresh));
                proof {
                    let prev = *old(self);
                    let e = self.subtrees@.last();
                    assert(self.subtrees@ =~= prev.subtrees@.push(e));
                    Self::lemma_key_index_push(prev.subtrees@, e, *k);
                    assert forall|t: Seq<K>| #[trigger] self.spec_get(t) == prev.spec_get(
                        t,
                    ) by {
                        if t.len() > 0 {
                            let x = t[0];
                            Self::lemma_key_index_push(prev.subtrees@, e, x);
                            let io = Self::key_index(prev.subtrees@, x);
                            if io >= 0 {
                                Self::lemma_key_index_spec(prev.subtrees@, x);
                                assert(self.subtrees@[io] == prev.subtrees@[io]);
                            } else if x == *k {
                                e.1.lemma_empty_spec_get(t.drop_first());
                            }
                        }
                    }
                }
                self.subtrees.len() - 1
            },
        }
    }

    /// Exact-match insertion walk from position `i` of the query: descend,
    /// creating missing nodes, and replace the final node's value.
    fn insert_from(&mut self, s: &[K], i: usize, value: V) -> (r: Option<V>)
        requires
            old(self).wf(),
            i <= s@.len(),
        ensures
            final(self).wf(),
            final(self).value is Some || final(self).subtrees@.len() > 0,
            r == old(self).spec_get(s@.skip(i as int)),
            forall|t: Seq<K>|
                #[trigger] final(self).spec_get(t) == (if t == s@.skip(i as int) {
                    Some(value)
                } else {
                    old(self).spec_get(t)
                }),
        decreases s@.len() - i,
    {
        if i == s.len() {
            proof {
                assert(s@.skip(i as int) =~= Seq::<K>::empty());
            }
            let r = self.value.take();
            self.value = Some(value);
            proof {
                assert forall|t: Seq<K>|
                    #[trigger] self.spec_get(t) == (if t == s@.skip(i as int) {
                        Some(value)
                    } else {
                        old(self).spec_get(t)
                    }) by {
                    if t.len() == 0 {
                        assert(t =~= Seq::<K>::empty());
                    }
                }
                assert(self.wf());
            }
            r
        } else {
            proof {
                assert(s@.skip(i as int)[0] == s@[i as int]);
                assert(s@.skip(i as int).drop_first() =~= s@.skip(i as int + 1));
            }
            let j = self.prepare_child(&s[i]);
            let ghost mid = *self;
            let c = &mut self.subtrees[j].1;
            let r = c.insert_from(s, i + 1, value);
            proof {
                let p = s@.skip(i as int);
                let p1 = s@.skip(i as int + 1);
                let k = s@[i as int];
                let cmid = mid.subtrees@[j as int].1;
                let cnew = self.subtrees@[j as int].1;
                assert(self.subtrees@.len() == mid.subtrees@.len());
                assert(self.value == mid.value);
                assert(forall|m: int|
                    0 <= m < mid.subtrees@.len() && m != j as int ==> self.subtrees@[m]
                        == mid.subtrees@[m]);
                assert(self.subtrees@[j as int].0 == k);
                assert forall|t: Seq<K>|
                    #[trigger] self.spec_get(t) == (if t == p {
                        Some(value)
                    } else {
                        old(self).spec_get(t)
                    }) by {
                    if t.len() == 0 {
                        assert(t != p);
                        assert(self.spec_get(t) == mid.spec_get(t));
                        assert(mid.spec_get(t) == old(self).spec_get(t));
                    } else {
                        let x = t[0];
                        assert(mid.spec_get(t) == old(self).spec_get(t));
                        Self::lemma_key_index_same_keys(mid.subtrees@, self.subtrees@, x);
                        let ix = Self::key_index(mid.subtrees@, x);
                        if x == k {
                            assert(ix == j);
                            assert(self.spec_get(t) == cnew.spec_get(t.drop_first()));
                            assert(mid.spec_get(t) == cmid.spec_get(t.drop_first()));
                            if t.drop_first() == p1 {
                                assert(t.len() == p.len());
                                assert forall|m: int| 0 <= m < t.len() implies t[m] == p[m] by {
                                    if m >= 1 {
                                        assert(t[m] == t.drop_first()[m - 1]);
                                        assert(p[m] == p.drop_first()[m - 1]);
                                    }
                                }
                                assert(t =~= p);
                                assert(self.spec_get(t) == Some(value));
                            } else {
                                assert(t != p);
                                assert(cnew.spec_get(t.drop_first()) == cmid.spec_get(
                                    t.drop_first(),
                                ));
                            }
                        } else {
                            assert(t != p);
                            if ix >= 0 {
                                Self::lemma_key_index_spec(mid.subtrees@, x);
                                assert(self.subtrees@[ix] == mid.subtrees@[ix]);
                                assert(self.spec_get(t) == mid.spec_get(t));
                            } else {
                                assert(self.spec_get(t) is None);
                                assert(mid.spec_get(t) is None);
                            }
                        }
                    }
                }
                assert(self.wf());
                assert(mid.spec_get(p) == old(self).spec_get(p));
                assert(mid.spec_get(p) == cmid.spec_get(p.drop_first()));
                assert(old(self).spec_get(p) == cmid.spec_get(p1));
            }
            r
        }
    }

    /// Inserts the given value at the exact match of the given sequence,
    /// creating the path to it as needed; returns the previous value stored
    /// at that exact sequence, if there was one.
    pub fn insert(&mut self, sequence: &[K], value: V) -> (prev: Option<V>)
        requires
            old(self).wf(),
        ensures
            final(self).wf(),
            final(self)@ == old(self)@.insert(sequence@, value),
            prev == (if old(self)@.contains_key(sequence@) {
                Some(old(self)@[sequence@])
            } else {
                None::<V>
            }),
    {
        proof {
            assert(sequence@.skip(0) =~= sequence@);
        }
        let r = self.insert_from(sequence, 0, value);
        proof {
            assert(self@ =~= old(self)@.insert(sequence@, value));
        }
        r
    }

    /// Shortest-prefix walk from position `i` of the query: at each node a
    /// present value wins before any further element is consumed.
    fn sp_get_from(&self, s: &[K], i: usize) -> (r: Option<&V>)
        requires
            i <= s@.len(),
        ensures
            match self.shortest_prefix(s@.skip(i as int)) {
                Some(n) => r is Some && *r.unwrap() == self.spec_get(
                    s@.skip(i as int).take(n),
                ).unwrap(),
                None => r is None,
            },
        decreases s@.len() - i,
    {
        match &self.value {
            Some(v) => {
                proof {
                    assert(s@.skip(i as int).take(0) =~= Seq::<K>::empty());
                }
                Some(v)
            },
            None => {
                if i == s.len() {
                    None
                } else {
                    proof {
                        assert(s@.skip(i as int)[0] == s@[i as int]);
                    }
                    match self.find_child(&s[i]) {
                        Some(j) => {
                            let r = self.subtrees[j].1.sp_get_from(s, i + 1);
                            proof {
                                let child = self.subtrees@[j as int].1;
                                child.lemma_shortest_prefix_bounds(s@.skip(i as int + 1));
                                assert(s@.skip(i as int).drop_first() =~= s@.skip(
                                    i as int + 1,
                                ));
                                if let Some(n) = child.shortest_prefix(s@.skip(i as int + 1)) {
                                    assert(s@.skip(i as int).take(n + 1).drop_first() =~= s@.skip(
                                        i as int + 1,
                                    ).take(n));
                                    assert(s@.skip(i as int).take(n + 1)[0] == s@[i as int]);
                                }
                            }
                            r
                        },
                        None => None,
                    }
                }
            },
        }
    }

    /// Returns an immutable reference to the value associated with the
    /// shortest stored prefix of the given sequence, or `None` if no prefix
    /// of it carries a value.
    pub fn get_by_shortest_prefix(&self, sequence: &[K]) -> (r: Option<&V>)
        ensures
            match self.shortest_prefix(sequence@) {
                Some(n) => r == Some(&self@[sequence@.take(n)]),
                None => r is None,
            },
    {
        proof {
            assert(sequence@.skip(0) =~= sequence@);
            self.lemma_shortest_prefix_spec(sequence@);
        }
        self.sp_get_from(sequence, 0)
    }

    /// Shortest-prefix length walk from position `i` of the query,
    /// counting the elements a successful walk consumes.
    fn sp_len_from(&self, s: &[K], i: usize) -> (r: Option<usize>)
        requires
            i <= s@.len(),
        ensures
            match self.shortest_prefix(s@.skip(i as int)) {
                Some(n) => r matches Some(c) && c as int == n,
                None => r is None,
            },
        decreases s@.len() - i,
    {
        if self.value.is_some() {
            Some(0)
        } else if i == s.len() {
            None
        } else {
            proof {
                assert(s@.skip(i as int)[0] == s@[i as int]);
                assert(s@.skip(i as int).drop_first() =~= s@.skip(i as int + 1));
            }
            match self.find_child(&s[i]) {
                Some(j) => {
                    proof {
                        self.subtrees@[j as int].1.lemma_shortest_prefix_bounds(
                            s@.skip(i as int + 1),
                        );
                    }
                    match self.subtrees[j].1.sp_len_from(s, i + 1) {
                        Some(c) => Some(c + 1),
                        None => None,
                    }
                },
                None => None,
            }
        }
    }

    /// Whether this node is structurally empty: no value and no subtrees.
    fn is_empty_node(&self) -> (r: bool)
        ensures
            r <==> self.spec_is_empty(),
    {
        self.value.is_none() && self.subtrees.is_empty()
    }

    /// Removal walk: takes the value stored at positions `i..n` of the
    /// query (which must be present), then, returning, detaches every
    /// subtree on that path that has become structurally empty, so no dead
    /// branch survives. The root of the walk itself is never detached.
    fn remove_from(&mut self, s: &[K], i: usize, n: usize) -> (r: V)
        requires
            old(self).wf(),
            i <= n <= s@.len(),
            old(self).spec_get(s@.subrange(i as int, n as int)) is Some,
        ensures
            final(self).wf(),
            r == old(self).spec_get(s@.subrange(i as int, n as int)).unwrap(),
            forall|t: Seq<K>|
                #[trigger] final(self).spec_get(t) == (if t == s@.subrange(i as int, n as int) {
                    None::<V>
                } else {
                    old(self).spec_get(t)
                }),
        decreases n - i,
    {
        if i == n {
            proof {
                assert(s@.subrange(i as int, n as int) =~= Seq::<K>::empty());
            }
            let r = self.value.take().unwrap();
            proof {
                assert forall|t: Seq<K>|
                    #[trigger] self.spec_get(t) == (if t == s@.subrange(i as int, n as int) {
                        None::<V>
                    } else {
                        old(self).spec_get(t)
                    }) by {
                    if t.len() == 0 {
                        assert(t =~= Seq::<K>::empty());
                    }
                }
                assert(self.wf());
            }
            r
        } else {
            let ghost p = s@.subrange(i as int, n as int);
            let ghost p1 = s@.subrange(i as int + 1, n as int);
            let ghost k = s@[i as int];
            proof {
                assert(p[0] == s@[i as int]);
                assert(p.drop_first() =~= p1);
            }
            let j = match self.find_child(&s[i]) {
                Some(j) => j,
                None => {
                    proof {
                        assert(false);
                    }
                    vstd::pervasive::unreached()
                },
            };
            proof {
                Self::lemma_key_index_spec(self.subtrees@, k);
                assert(old(self).spec_get(p) == old(self).subtrees@[j as int].1.spec_get(p1));
            }
            let ghost mid = *self;
            let c = &mut self.subtrees[j].1;
            let r = c.remove_from(s, i + 1, n);
            let prune = self.subtrees[j].1.is_empty_node();
            let ghost cnew = self.subtrees@[j as int].1;
            if prune {
                self.subtrees.remove(j);
            }
            proof {
                let cmid = mid.subtrees@[j as int].1;
                let after = mid.subtrees@.update(j as int, (k, cnew));
                if prune {
                    assert(self.subtrees@ =~= after.remove(j as int));
                    after.remove_ensures(j as int);
                } else {
                    assert(self.subtrees@ =~= after);
                }
                assert forall|t: Seq<K>|
                    #[trigger] self.spec_get(t) == (if t == p {
                        None::<V>
                    } else {
                        old(self).spec_get(t)
                    }) by {
                    if t.len() == 0 {
                        assert(t != p);
                    } else {
                        let x = t[0];
                        Self::lemma_key_index_same_keys(mid.subtrees@, after, x);
                        let ix = Self::key_index(mid.subtrees@, x);
                        assert(old(self).spec_get(t) == mid.spec_get(t));
                        if x == k {
                            assert(ix == j);
                            assert(mid.spec_get(t) == cmid.spec_get(t.drop_first()));
                            assert(cnew.spec_get(t.drop_first()) == (if t.drop_first() == p1 {
                                None::<V>
                            } else {
                                cmid.spec_get(t.drop_first())
                            }));
                            if prune {
                                assert(Self::key_index(self.subtrees@, x) == -1) by {
                                    Self::lemma_key_index_spec(self.subtrees@, x);
                                    let ir = Self::key_index(self.subtrees@, x);
                                    if ir >= 0 {
                                        if ir < j as int {
                                            assert(self.subtrees@[ir] == mid.subtrees@[ir]);
                                        } else {
                                            assert(self.subtrees@[ir] == mid.subtrees@[ir + 1]);
                                        }
                                    }
                                }
                                assert(self.spec_get(t) is None);
                                cnew.lemma_empty_spec_get(t.drop_first());
                            } else {
                                assert(self.spec_get(t) == cnew.spec_get(t.drop_first()));
                            }
                            if t.drop_first() == p1 {
                                assert(t.len() == p.len());
                                assert forall|m: int| 0 <= m < t.len() implies t[m] == p[m] by {
                                    if m >= 1 {
                                        assert(t[m] == t.drop_first()[m - 1]);
                                        assert(p[m] == p.drop_first()[m - 1]);
                                    }
                                }
                                assert(t =~= p);
                            } else {
                                assert(t != p);
                            }
                        } else {
                            assert(t != p);
                            if prune {
                                Self::lemma_key_index_remove(after, j as int, x);
                            }
                            if ix >= 0 {
                                Self::lemma_key_index_spec(mid.subtrees@, x);
                                assert(after[ix] == mid.subtrees@[ix]);
                                if prune {
                                    if ix < j as int {
                                        assert(self.subtrees@[ix] == after[ix]);
                                    } else {
                                        assert(self.subtrees@[ix - 1] == after[ix]);
                                    }
                                    assert(self.spec_get(t) == mid.subtrees@[ix].1.spec_get(
                                        t.drop_first(),
                                    ));
                                } else {
                                    assert(self.spec_get(t) == mid.subtrees@[ix].1.spec_get(
                                        t.drop_first(),
                                    ));
                                }
                                assert(mid.spec_get(t) == mid.subtrees@[ix].1.spec_get(
                                    t.drop_first(),
                                ));
                            } else {
                                assert(self.spec_get(t) is None);
                                assert(mid.spec_get(t) is None);
                            }
                        }
                    }
                }
                assert forall|m: int, q: int|
                    0 <= m < q < self.subtrees@.len() implies (#[trigger] self.subtrees@[m]).0 != (
                #[trigger] self.subtrees@[q]).0 by {
                    if prune {
                        if q < j as int {
                        } else if m < j as int {
                            assert(self.subtrees@[q] == after[q + 1]);
                        } else {
                            assert(self.subtrees@[m] == after[m + 1]);
                            assert(self.subtrees@[q] == after[q + 1]);
                        }
                    }
                }
                assert forall|m: int| 0 <= m < self.subtrees@.len() implies (
                #[trigger] self.subtrees@[m]).1.wf() && !self.subtrees@[m].1.spec_is_empty() by {
                    if prune {
                        if m < j as int {
                            assert(self.subtrees@[m] == after[m]);
                        } else {
                            assert(self.subtrees@[m] == after[m + 1]);
                        }
                    }
                }
                assert(self.wf());
                assert(r == old(self).spec_get(p).unwrap());
            }
            r
        }
    }

    /// Mutable walk to a present value: returns a mutable reference to the
    /// value stored at positions `i..n` of the query, which must be
    /// present. The tree afterwards stores whatever the caller leaves in
    /// that reference, and nothing else changes.
    fn get_mut_present(&mut self, s: &[K], i: usize, n: usize) -> (r: &mut V)
        requires
            old(self).wf(),
            i <= n <= s@.len(),
            old(self).spec_get(s@.subrange(i as int, n as int)) is Some,
        ensures
            *r == old(self).spec_get(s@.subrange(i as int, n as int)).unwrap(),
            final(self).wf(),
            forall|t: Seq<K>|
                #[trigger] final(self).spec_get(t) == (if t == s@.subrange(i as int, n as int) {
                    Some(*final(r))
                } else {
                    old(self).spec_get(t)
                }),
        decreases n - i,
    {
        if i == n {
            proof {
                assert(s@.subrange(i as int, n as int) =~= Seq::<K>::empty());
            }
            let r = self.value.as_mut().unwrap();
            proof {
                assert forall|t: Seq<K>|
                    #[trigger] after_borrow(*self).spec_get(t) == (if t == s@.subrange(
                        i as int,
                        n as int,
                    ) {
                        Some(*final(r))
                    } else {
                        old(self).spec_get(t)
                    }) by {
                    if t.len() == 0 {
                        assert(t =~= Seq::<K>::empty());
                    }
                }
                assert(after_borrow(*self).wf());
            }
            r
        } else {
            let ghost p = s@.subrange(i as int, n as int);
            let ghost p1 = s@.subrange(i as int + 1, n as int);
            let ghost k = s@[i as int];
            proof {
                assert(p[0] == s@[i as int]);
                assert(p.drop_first() =~= p1);
            }
            let j = match self.find_child(&s[i]) {
                Some(j) => j,
                None => {
                    proof {
                        assert(false);
                    }
                    vstd::pervasive::unreached()
                },
            };
            proof {
                Self::lemma_key_index_spec(self.subtrees@, k);
                assert(old(self).spec_get(p) == old(self).subtrees@[j as int].1.spec_get(p1));
            }
            let ghost mid = *self;
            let c = &mut self.subtrees[j].1;
            let r = c.get_mut_present(s, i + 1, n);
            proof {
                let cmid = mid.subtrees@[j as int].1;
                let cnew = after_borrow(*self).subtrees@[j as int].1;
                assert(after_borrow(*self).subtrees@ =~= mid.subtrees@.update(
                    j as int,
                    (k, cnew),
                ));
                assert forall|t: Seq<K>|
                    #[trigger] after_borrow(*self).spec_get(t) == (if t == p {
                        Some(*final(r))
                    } else {
                        old(self).spec_get(t)
                    }) by {
                    if t.len() == 0 {
                        assert(t != p);
                        assert(after_borrow(*self).spec_get(t) == mid.spec_get(t));
                        assert(mid.spec_get(t) == old(self).spec_get(t));
                    } else {
                        let x = t[0];
                        assert(mid.spec_get(t) == old(self).spec_get(t));
                        Self::lemma_key_index_same_keys(
                            mid.subtrees@,
                            after_borrow(*self).subtrees@,
                            x,
                        );
                        let ix = Self::key_index(mid.subtrees@, x);
                        if x == k {
                            assert(ix == j);
                            assert(after_borrow(*self).spec_get(t) == cnew.spec_get(
                                t.drop_first(),
                            ));
                            assert(mid.spec_get(t) == cmid.spec_get(t.drop_first()));
                            if t.drop_first() == p1 {
                                assert(t.len() == p.len());
                                assert forall|m: int| 0 <= m < t.len() implies t[m] == p[m] by {
                                    if m >= 1 {
                                        assert(t[m] == t.drop_first()[m - 1]);
                                        assert(p[m] == p.drop_first()[m - 1]);
                                    }
                                }
                                assert(t =~= p);
                                assert(after_borrow(*self).spec_get(t) == Some(*final(r)));
                            } else {
                                assert(t != p);
                                assert(cnew.spec_get(t.drop_first()) == cmid.spec_get(
                                    t.drop_first(),
                                ));
                            }
                        } else {
                            assert(t != p);
                            if ix >= 0 {
                                Self::lemma_key_index_spec(mid.subtrees@, x);
                                assert(after_borrow(*self).subtrees@[ix] == mid.subtrees@[ix]);
                                assert(after_borrow(*self).spec_get(t) == mid.spec_get(t));
                            } else {
                                assert(after_borrow(*self).spec_get(t) is None);
                                assert(mid.spec_get(t) is None);
                            }
                        }
                    }
                }
                assert(cnew.wf());
                if cnew.spec_is_empty() {
                    cnew.lemma_empty_spec_get(p1);
                    assert(cnew.spec_get(p1) == Some(*final(r)));
                    assert(false);
                }
                assert forall|m: int, q: int|
                    0 <= m < q < after_borrow(*self).subtrees@.len() implies (
                #[trigger] after_borrow(*self).subtrees@[m]).0 != (#[trigger] after_borrow(
                    *self,
                ).subtrees@[q]).0 by {
                    assert(after_borrow(*self).subtrees@[m].0 == mid.subtrees@[m].0);
                    assert(after_borrow(*self).subtrees@[q].0 == mid.subtrees@[q].0);
                }
                assert forall|m: int|
                    0 <= m < after_borrow(*self).subtrees@.len() implies ((#[trigger] after_borrow(
                    *self,
                ).subtrees@[m]).1.wf() && !after_borrow(*self).subtrees@[m].1.spec_is_empty()) by {
                    if m != j as int {
                        assert(after_borrow(*self).subtrees@[m] == mid.subtrees@[m]);
                    }
                }
                assert(after_borrow(*self).wf());
                assert(mid.spec_get(p) == old(self).spec_get(p));
                assert(mid.spec_get(p) == cmid.spec_get(p.drop_first()));
                assert(old(self).spec_get(p) == cmid.spec_get(p1));
            }
            r
        }
    }

    /// Returns a mutable reference to the value stored at the exact match
    /// of the given sequence, or `None`, leaving the tree untouched, if no
    /// value is stored there. The tree afterwards stores whatever the
    /// caller leaves in the returned reference.
    pub fn get_exact_match_mut(&mut self, sequence: &[K]) -> (r: Option<&mut V>)
        requires
            old(self).wf(),
        ensures
            final(self).wf(),
            r is Some <==> old(self)@.contains_key(sequence@),
            r is Some ==> *r.unwrap() == old(self)@[sequence@]
                && final(self)@ == old(self)@.insert(sequence@, *final(r.unwrap())),
            r is None ==> *final(self) == *old(self),
    {
        let present = self.get_exact_match(sequence).is_some();
        if !present {
            return None;
        }
        proof {
            assert(sequence@.subrange(0, sequence@.len() as int) =~= sequence@);
        }
        let m = self.get_mut_present(sequence, 0, sequence.len());
        proof {
            assert(after_borrow(*self)@ =~= old(self)@.insert(sequence@, *final(m)));
        }
        Some(m)
    }

    /// Returns a mutable reference to the value associated with the
    /// shortest stored prefix of the given sequence, or `None`, leaving
    /// the tree untouched, if no prefix of it carries a value. The tree
    /// afterwards stores whatever the caller leaves in the returned
    /// reference.
    pub fn get_by_shortest_prefix_mut(&mut self, sequence: &[K]) -> (r: Option<&mut V>)
        requires
            old(self).wf(),
        ensures
            final(self).wf(),
            match old(self).shortest_prefix(sequence@) {
                Some(n) => r is Some && *r.unwrap() == old(self)@[sequence@.take(n)]
                    && final(self)@ == old(self)@.insert(sequence@.take(n), *final(r.unwrap())),
                None => r is None && *final(self) == *old(self),
            },
    {
        proof {
            self.lemma_shortest_prefix_spec(sequence@);
        }
        let n = match self.shortest_prefix_len(sequence) {
            Some(n) => n,
            None => {
                return None;
            },
        };
        proof {
            assert(sequence@.subrange(0, n as int) =~= sequence@.take(n as int));
        }
        let m = self.get_mut_present(sequence, 0, n);
        proof {
            assert(after_borrow(*self)@ =~= old(self)@.insert(sequence@.take(n as int), *final(m)));
        }
        Some(m)
    }

    /// Removes and returns the value stored at the exact match of the
    /// given sequence, pruning every subtree the removal leaves
    /// structurally empty; returns `None`, and leaves the tree untouched,
    /// if no value is stored there.
    pub fn remove_exact_match(&mut self, sequence: &[K]) -> (r: Option<V>)
        requires
            old(self).wf(),
        ensures
            final(self).wf(),
            final(self)@ == old(self)@.remove(sequence@),
            r == (if old(self)@.contains_key(sequence@) {
                Some(old(self)@[sequence@])
            } else {
                None::<V>
            }),
            r is None ==> *final(self) == *old(self),
    {
        let present = self.get_exact_match(sequence).is_some();
        if !present {
            proof {
                assert(self@ =~= old(self)@.remove(sequence@));
            }
            return None;
        }
        proof {
            assert(sequence@.subrange(0, sequence@.len() as int) =~= sequence@);
        }
        let v = self.remove_from(sequence, 0, sequence.len());
        proof {
            assert(self@ =~= old(self)@.remove(sequence@));
        }
        Some(v)
    }

    /// Removes and returns the value associated with the shortest stored
    /// prefix of the given sequence, pruning every subtree the removal
    /// leaves structurally empty; returns `None`, and leaves the tree
    /// untouched, if no prefix of the sequence carries a value.
    pub fn remove_by_shortest_prefix(&mut self, sequence: &[K]) -> (r: Option<V>)
        requires
            old(self).wf(),
        ensures
            final(self).wf(),
            match old(self).shortest_prefix(sequence@) {
                Some(n) => r == Some(old(self)@[sequence@.take(n)]) && final(self)@ == old(
                    self,
                )@.remove(sequence@.take(n)),
                None => r is None && *final(self) == *old(self),
            },
    {
        proof {
            self.lemma_shortest_prefix_spec(sequence@);
        }
        let n = match self.shortest_prefix_len(sequence) {
            Some(n) => n,
            None => {
                return None;
            },
        };
        proof {
            assert(sequence@.subrange(0, n as int) =~= sequence@.take(n as int));
        }
        let v = self.remove_from(sequence, 0, n);
        proof {
            assert(self@ =~= old(self)@.remove(sequence@.take(n as int)));
        }
        Some(v)
    }

    /// Returns how many elements of the given sequence a shortest-prefix
    /// lookup would consume, or `None` if no prefix of it carries a value.
    /// The elements past the matched prefix are left untouched by every
    /// shortest-prefix operation, so this is the caller's measure of where
    /// the unconsumed remainder starts.
    pub fn shortest_prefix_len(&self, sequence: &[K]) -> (r: Option<usize>)
        ensures
            match self.shortest_prefix(sequence@) {
                Some(n) => r matches Some(c) && c as int == n,
                None => r is None,
            },
    {
        proof {
            assert(sequence@.skip(0) =~= sequence@);
        }
        self.sp_len_from(sequence, 0)
    }
}

} // verus!

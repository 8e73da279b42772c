//! A prefix tree over a fixed alphabet, and a word set built on it.
//!
//! `R` is the cardinality of the alphabet in use and `B` is the index base:
//! a key element `b` belongs to the alphabet when `B <= b < B + R`.

use vstd::prelude::*;

verus! {

/// Errors that trie operations may return.
#[derive(Debug, PartialEq, Eq, Structural)]
pub enum Error {
    /// A key element cannot be used with the given alphabet size, e.g. the
    /// key has value 19 but the alphabet size is 10.  For elements below the
    /// index base, `value` reports the raw element instead of an offset.
    KeyNotInAlphabet { value: usize, size: usize },
}

/// Whether alphabet offset `v` fits an alphabet of `size` entries.
pub open spec fn offset_in_alphabet(v: int, size: int) -> bool {
    0 <= v < size
}

/// The alphabet offset of key element `b` over index base `base`, as the trie
/// stores it; elements below the base get a negative offset, which never fits.
pub open spec fn key_offset(b: u8, base: int) -> int {
    b as int - base
}

/// The whole key, element by element, as alphabet offsets.
pub open spec fn key_offsets(key: Seq<u8>, base: int) -> Seq<int> {
    key.map_values(|b: u8| b as int - base)
}

/// The offset reported by [`Error::KeyNotInAlphabet`] for key element `b`.
pub open spec fn reported_offset(b: u8, base: int) -> int {
    if b as int >= base {
        b as int - base
    } else {
        b as int
    }
}

/// Every prefix of `p`, including the empty one and `p` itself.
pub open spec fn prefixes_of(p: Seq<int>) -> Set<Seq<int>> {
    Set::new(|q: Seq<int>| exists|e: int| 0 <= e <= p.len() && q == #[trigger] p.take(e))
}

/// A trie, stored as a flat table: node `i` keeps its outgoing edge for
/// offset `c` at `children[i * R + c]` (0 standing for "no edge", which is
/// unambiguous because node 0 is the root and is never a child), and its
/// stored value at `values[i]`.
pub struct Trie<const R: usize, const B: usize, T> {
    children: Vec<usize>,
    values: Vec<Option<T>>,
    paths: Ghost<Map<int, Seq<int>>>,
}

impl<const R: usize, const B: usize, T> Trie<R, B, T> {
    /// Number of allocated nodes.
    pub closed spec fn n(self) -> int {
        self.values.len() as int
    }

    /// The path of offsets that leads from the root to node `i`.
    pub closed spec fn path(self, i: int) -> Seq<int> {
        self.paths@[i]
    }

    /// The child of node `i` for offset `c` (0 when absent).
    pub closed spec fn child(self, i: int, c: int) -> int {
        self.children@[i * (R as int) + c] as int
    }

    /// Whether some allocated node sits at the end of path `p`.
    pub closed spec fn has_path(self, p: Seq<int>) -> bool {
        exists|j: int| 0 <= j < self.n() && self.path(j) == p
    }

    /// The set of paths that walks from the root can follow to their end.
    pub closed spec fn paths_set(self) -> Set<Seq<int>> {
        Set::new(|p: Seq<int>| self.has_path(p))
    }

    /// The node sitting at the end of path `p`.
    pub closed spec fn node_at(self, p: Seq<int>) -> int {
        choose|j: int| 0 <= j < self.n() && self.path(j) == p
    }

    /// The keys inserted so far, each with the last value inserted for it.
    pub closed spec fn words(self) -> Map<Seq<int>, T> {
        Map::new(
            |p: Seq<int>| self.has_path(p) && self.values@[self.node_at(p)] is Some,
            |p: Seq<int>| self.values@[self.node_at(p)]->Some_0,
        )
    }

    /// Distinct nodes lie on distinct paths.
    pub closed spec fn paths_injective(self) -> bool {
        forall|i: int, j: int|
            0 <= i < self.n() && 0 <= j < self.n() && i != j ==> #[trigger] self.path(i)
                != #[trigger] self.path(j)
    }

    /// Edges point at allocated non-root nodes whose path extends the
    /// parent's by the edge's offset, and an edge exists exactly when the
    /// extended path is allocated.
    pub closed spec fn links_ok(self) -> bool {
        forall|i: int, c: int|
            0 <= i < self.n() && 0 <= c < R ==> {
                &&& (#[trigger] self.child(i, c) != 0 ==> 0 < self.child(i, c) < self.n()
                    && self.path(self.child(i, c)) == self.path(i).push(c))
                &&& (self.child(i, c) != 0 <==> self.has_path(self.path(i).push(c)))
            }
    }

    /// Every prefix of an allocated path is allocated.
    pub closed spec fn prefix_closed(self) -> bool {
        forall|i: int, k: int|
            0 <= i < self.n() && 0 <= k <= self.path(i).len() ==> self.has_path(
                #[trigger] self.path(i).take(k),
            )
    }

    /// Paths consist of offsets that fit the alphabet.
    pub closed spec fn paths_valid(self) -> bool {
        forall|i: int, k: int|
            0 <= i < self.n() && 0 <= k < self.path(i).len() ==> offset_in_alphabet(
                #[trigger] self.path(i)[k],
                R as int,
            )
    }

    /// Structural invariant of the trie.
    pub closed spec fn wf(self) -> bool {
        &&& self.n() >= 1
        &&& self.children.len() == self.n() * (R as int)
        &&& forall|i: int| 0 <= i < self.n() ==> self.paths@.dom().contains(i)
        &&& self.path(0) == Seq::<int>::empty()
        &&& self.paths_injective()
        &&& self.links_ok()
        &&& self.prefix_closed()
        &&& self.paths_valid()
    }

    /// Initialize an empty trie.
    pub fn new() -> (r: Self)
        ensures
            r.wf(),
            r.paths_set() == Set::<Seq<int>>::empty().insert(Seq::<int>::empty()),
            r.words() == Map::<Seq<int>, T>::empty(),
    {
        let mut values: Vec<Option<T>> = Vec::new();
        values.push(None);
        let mut children: Vec<usize> = Vec::new();
        let mut c: usize = 0;
        while c < R
            invariant
                c <= R,
                children.len() == c,
                forall|k: int| 0 <= k < c ==> children[k] == 0usize,
            decreases R - c,
        {
            children.push(0);
            c += 1;
        }
        let r = Self {
            children,
            values,
            paths: Ghost(Map::<int, Seq<int>>::empty().insert(0, Seq::<int>::empty())),
        };
        proof {
            assert(r.n() == 1);
            assert(r.path(0) == Seq::<int>::empty());
            assert forall|i: int, cc: int| 0 <= i < r.n() && 0 <= cc < R implies {
                &&& (#[trigger] r.child(i, cc) != 0 ==> 0 < r.child(i, cc) < r.n() && r.path(
                    r.child(i, cc),
                ) == r.path(i).push(cc))
                &&& (r.child(i, cc) != 0 <==> r.has_path(r.path(i).push(cc)))
            } by {
                assert(r.child(i, cc) == 0);
                assert forall|j: int| 0 <= j < r.n() implies r.path(j) != r.path(i).push(cc) by {
                    assert(r.path(j).len() == 0);
                }
            }
            assert forall|i: int, k: int| 0 <= i < r.n() && 0 <= k <= r.path(i).len() implies
                r.has_path(#[trigger] r.path(i).take(k)) by {
                assert(r.path(i).take(k) == r.path(0));
            }
            assert(r.paths_set() =~= Set::<Seq<int>>::empty().insert(Seq::<int>::empty())) by {
                assert(r.has_path(Seq::<int>::empty()));
            }
            assert(r.words() =~= Map::<Seq<int>, T>::empty());
        }
        r
    }

    /// Insert a value into the trie.  On success the key, read as alphabet
    /// offsets, is recorded with the value; when a key element falls outside
    /// the alphabet, the first such element is reported and no value is
    /// recorded, though the nodes walked up to that element stay allocated.
    pub fn insert(&mut self, key: &[u8], value: T) -> (r: Result<(), Error>)
        requires
            old(self).wf(),
        ensures
            final(self).wf(),
            match r {
                Ok(()) => {
                    &&& forall|t: int|
                        0 <= t < key@.len() ==> offset_in_alphabet(
                            key_offset(key@[t], B as int),
                            R as int,
                        )
                    &&& final(self).words() == old(self).words().insert(
                        key_offsets(key@, B as int),
                        value,
                    )
                    &&& final(self).paths_set() == old(self).paths_set().union(
                        prefixes_of(key_offsets(key@, B as int)),
                    )
                },
                Err(e) => {
                    &&& exists|t: int|
                        {
                            &&& 0 <= t < key@.len()
                            &&& !offset_in_alphabet(key_offset(#[trigger] key@[t], B as int), R as int)
                            &&& (forall|u: int|
                                0 <= u < t ==> offset_in_alphabet(
                                    key_offset(#[trigger] key@[u], B as int),
                                    R as int,
                                ))
                            &&& e == (Error::KeyNotInAlphabet {
                                value: reported_offset(key@[t], B as int) as usize,
                                size: R,
                            })
                            &&& final(self).paths_set() == old(self).paths_set().union(
                                prefixes_of(key_offsets(key@, B as int).take(t)),
                            )
                        }
                    &&& final(self).words() == old(self).words()
                },
            },
    {
        let ghost kseq = key_offsets(key@, B as int);
        let mut node: usize = 0;
        let mut t: usize = 0;
        proof {
            assert(kseq.take(0) == Seq::<int>::empty());
            assert(self.paths_set() =~= old(self).paths_set().union(prefixes_of(kseq.take(0))))
                by {
                assert(self.has_path(Seq::<int>::empty()));
                assert forall|q: Seq<int>|
                    prefixes_of(kseq.take(0)).contains(q) implies q == Seq::<int>::empty() by {
                    let e = choose|e: int| 0 <= e <= kseq.take(0).len() && q == #[trigger] kseq.take(
                        0,
                    ).take(e);
                    assert(q.len() == 0);
                    assert(q =~= Seq::<int>::empty());
                }
            }
        }
        while t < key.len()
            invariant
                self.wf(),
                t <= key@.len(),
                kseq == key_offsets(key@, B as int),
                0 <= (node as int) < self.n(),
                self.path(node as int) == kseq.take(t as int),
                forall|u: int|
                    0 <= u < t ==> offset_in_alphabet(
                        key_offset(#[trigger] key@[u], B as int),
                        R as int,
                    ),
                self.words() == old(self).words(),
                self.paths_set() == old(self).paths_set().union(prefixes_of(kseq.take(t as int))),
            decreases key@.len() - t,
        {
            let b = key[t];
            let bu = b as usize;
            if bu < B || bu - B >= R {
                let rep = if bu >= B {
                    bu - B
                } else {
                    bu
                };
                proof {
                    assert(!offset_in_alphabet(key_offset(key@[t as int], B as int), R as int));
                    assert(rep as int == reported_offset(key@[t as int], B as int));
                }
                return Err(Error::KeyNotInAlphabet { value: rep, size: R });
            }
            let c = bu - B;
            assert(offset_in_alphabet(c as int, R as int));
            assert(kseq[t as int] == c as int);
            proof {
                lemma_flat_index(self.n(), R as int, node as int, c as int);
            }
            let slot = node * R + c;
            let ch = self.children[slot];
            assert(ch as int == self.child(node as int, c as int));
            if ch != 0 {
                proof {
                    assert(self.path(ch as int) == self.path(node as int).push(c as int));
                    lemma_take_push(kseq, t as int);
                    assert(self.path(ch as int) == kseq.take(t as int + 1));
                    assert(self.paths_set() =~= old(self).paths_set().union(
                        prefixes_of(kseq.take(t as int + 1)),
                    )) by {
                        lemma_prefixes_step(kseq, t as int);
                        assert(self.paths_set().contains(kseq.take(t as int + 1))) by {
                            assert(self.has_path(self.path(ch as int)));
                        }
                    }
                }
                node = ch;
            } else {
                let ghost prev = *self;
                let new_idx = self.create();
                let ghost mid = *self;
                proof {
                    lemma_flat_index(prev.n(), R as int, node as int, c as int);
                    assert(mid.children.len() == (prev.n() + 1) * (R as int));
                    assert((prev.n() + 1) * (R as int) == prev.n() * (R as int) + (R as int))
                        by (nonlinear_arith);
                    assert(slot < self.children.len());
                }
                self.children[slot] = new_idx;
                proof {
                    self.paths = Ghost(
                        self.paths@.insert(
                            new_idx as int,
                            prev.path(node as int).push(c as int),
                        ),
                    );
                    let ghost ln = prev.children.len() as int;
                    let ghost sg = node as int * (R as int) + c as int;
                    assert(self.children@ == mid.children@.update(sg, new_idx));
                    assert(self.children@.take(ln) =~= prev.children@.update(sg, new_idx)) by {
                        assert forall|k: int| 0 <= k < ln implies self.children@.take(ln)[k]
                            == prev.children@.update(sg, new_idx)[k] by {
                            assert(self.children@.take(ln)[k] == self.children@[k]);
                            if k != sg {
                                assert(mid.children@[k] == mid.children@.take(ln)[k]);
                                assert(mid.children@.take(ln)[k] == prev.children@[k]);
                            }
                        }
                    }
                    self.lemma_attach_node(prev, node as int, c as int, new_idx as int);
                    lemma_take_push(kseq, t as int);
                    assert(self.path(new_idx as int) == kseq.take(t as int + 1));
                    assert(self.words() == old(self).words()) by {
                        assert(self.words() =~= prev.words());
                        assert(prev.words() == old(self).words());
                    }
                    assert(self.paths_set() =~= old(self).paths_set().union(
                        prefixes_of(kseq.take(t as int + 1)),
                    )) by {
                        lemma_prefixes_step(kseq, t as int);
                        assert(self.paths_set() =~= prev.paths_set().insert(
                            kseq.take(t as int + 1),
                        ));
                    }
                }
                node = new_idx;
            }
            t += 1;
        }
        proof {
            assert(kseq.take(t as int) == kseq);
        }
        let ghost prev = *self;
        self.values[node] = Some(value);
        proof {
            assert(self.paths == prev.paths);
            assert(self.children@ == prev.children@);
            assert(self.values@ == prev.values@.update(node as int, Some(value)));
            assert forall|i: int| #[trigger] self.path(i) == prev.path(i) by {}
            assert forall|i: int, cc: int| #[trigger] self.child(i, cc) == prev.child(i, cc) by {}
            assert forall|p: Seq<int>| #[trigger] self.has_path(p) == prev.has_path(p) by {
                if self.has_path(p) {
                    let j = choose|j: int| 0 <= j < self.n() && self.path(j) == p;
                    assert(prev.path(j) == p);
                } else if prev.has_path(p) {
                    let j = choose|j: int| 0 <= j < prev.n() && prev.path(j) == p;
                    assert(self.path(j) == p);
                }
            }
            assert(self.wf());
            assert(self.words() =~= prev.words().insert(kseq, value)) by {
                assert(self.path(node as int) == kseq);
                assert(self.has_path(kseq));
                assert forall|p: Seq<int>| #[trigger] prev.has_path(p) implies self.node_at(p)
                    == prev.node_at(p) by {
                    let j = prev.node_at(p);
                    assert(0 <= j < prev.n() && prev.path(j) == p);
                    assert(self.path(j) == p);
                    assert(self.has_path(p));
                    let j2 = self.node_at(p);
                    assert(0 <= j2 < self.n() && self.path(j2) == p);
                    assert(prev.path(j2) == p);
                    assert(j2 == j);
                }
                assert(self.node_at(kseq) == node as int) by {
                    let j2 = self.node_at(kseq);
                    assert(0 <= j2 < self.n() && self.path(j2) == kseq);
                    assert(prev.path(j2) == kseq && prev.path(node as int) == kseq);
                }
                assert forall|p: Seq<int>|
                    #![trigger self.words().dom().contains(p)]
                    #![trigger prev.words().dom().contains(p)]
                    true implies {
                    &&& (self.words().dom().contains(p) == prev.words().insert(
                        kseq,
                        value,
                    ).dom().contains(p))
                    &&& (self.words().dom().contains(p) ==> self.words()[p] == prev.words().insert(
                        kseq,
                        value,
                    )[p])
                } by {
                    if p == kseq {
                        assert(self.node_at(p) == node as int);
                        assert(self.values@[node as int] == Some(value));
                    } else {
                        if prev.has_path(p) {
                            assert(self.node_at(p) == prev.node_at(p));
                            assert(prev.path(prev.node_at(p)) == p);
                            assert(prev.node_at(p) != node as int) by {
                                assert(prev.path(node as int) == kseq);
                            }
                            assert(self.values@[self.node_at(p)] == prev.values@[prev.node_at(p)]);
                        }
                    }
                }
            }
            assert(self.paths_set() =~= prev.paths_set());
        }
        Ok(())
    }

    /// Append a fresh node (no value, no edges) and return its index.
    fn create(&mut self) -> (new_idx: usize)
        requires
            old(self).wf(),
        ensures
            new_idx as int == old(self).n(),
            final(self).n() == old(self).n() + 1,
            final(self).children.len() == final(self).n() * (R as int),
            final(self).values@ == old(self).values@.push(None),
            final(self).children@.take(old(self).children.len() as int) == old(self).children@,
            forall|k: int|
                old(self).children.len() <= k < final(self).children.len()
                    ==> final(self).children@[k] == 0usize,
            final(self).paths == old(self).paths,
    {
        let new_idx = self.values.len();
        self.values.push(None);
        let mut c: usize = 0;
        let ghost base_len = self.children.len() as int;
        while c < R
            invariant
                c <= R,
                base_len == old(self).children@.len(),
                self.children.len() == base_len + c,
                self.children@.take(base_len) == old(self).children@,
                forall|k: int| base_len <= k < self.children.len() ==> self.children@[k] == 0usize,
                self.values@ == old(self).values@.push(None),
                self.paths == old(self).paths,
            decreases R - c,
        {
            let ghost before = self.children@;
            self.children.push(0);
            c += 1;
            proof {
                assert(self.children@ == before.push(0));
                assert(before.push(0)[before.len() as int] == 0usize);
                assert(self.children@.take(base_len) =~= old(self).children@) by {
                    assert forall|k: int| 0 <= k < base_len implies self.children@.take(
                        base_len,
                    )[k] == old(self).children@[k] by {
                        assert(base_len <= before.len());
                        assert(self.children@.take(base_len)[k] == self.children@[k]);
                        assert(before.push(0)[k] == before[k]);
                        assert(before.take(base_len)[k] == before[k]);
                        assert(old(self).children@[k] == before.take(base_len)[k]);
                    }
                }
            }
        }
        proof {
            assert(old(self).children.len() == old(self).n() * (R as int));
            let m = old(self).n();
            assert((m + 1) * (R as int) == m * (R as int) + (R as int)) by (nonlinear_arith);
        }
        new_idx
    }

    /// Retrieve the value for the given key, and tell how long a prefix of
    /// the key the trie contains: `depth` is the length of the longest
    /// allocated prefix, and the returned option is the value stored for the
    /// whole key (`None` when the key is absent or only partially walked).
    pub fn prefix(&self, key: &[u8]) -> (r: Result<(usize, &Option<T>), Error>)
        requires
            self.wf(),
        ensures
            match r {
                Ok((depth, v)) => {
                    &&& forall|t: int|
                        0 <= t < key@.len() && t <= depth ==> offset_in_alphabet(
                            key_offset(#[trigger] key@[t], B as int),
                            R as int,
                        )
                    &&& 0 <= depth <= key@.len()
                    &&& self.paths_set().contains(
                        key_offsets(key@, B as int).take(depth as int),
                    )
                    &&& forall|e: int|
                        depth < e <= key@.len() ==> !self.paths_set().contains(
                            #[trigger] key_offsets(key@, B as int).take(e),
                        )
                    &&& (depth == key@.len() ==> {
                        let kseq = key_offsets(key@, B as int);
                        &&& (self.words().dom().contains(kseq) ==> *v == Some(
                            self.words()[kseq],
                        ))
                        &&& (!self.words().dom().contains(kseq) ==> *v is None)
                    })
                    &&& (depth < key@.len() ==> *v is None)
                },
                Err(e) => exists|t: int|
                    {
                        &&& 0 <= t < key@.len()
                        &&& !offset_in_alphabet(key_offset(#[trigger] key@[t], B as int), R as int)
                        &&& (forall|u: int|
                            0 <= u < t ==> offset_in_alphabet(
                                key_offset(#[trigger] key@[u], B as int),
                                R as int,
                            ))
                        &&& self.paths_set().contains(key_offsets(key@, B as int).take(t))
                        &&& e == (Error::KeyNotInAlphabet {
                            value: reported_offset(key@[t], B as int) as usize,
                            size: R,
                        })
                    },
            },
    {
        let ghost kseq = key_offsets(key@, B as int);
        let mut node: usize = 0;
        let mut t: usize = 0;
        proof {
            assert(kseq.take(0) == Seq::<int>::empty());
        }
        while t < key.len()
            invariant
                self.wf(),
                t <= key@.len(),
                kseq == key_offsets(key@, B as int),
                0 <= (node as int) < self.n(),
                self.path(node as int) == kseq.take(t as int),
                forall|u: int|
                    0 <= u < t ==> offset_in_alphabet(
                        key_offset(#[trigger] key@[u], B as int),
                        R as int,
                    ),
            decreases key@.len() - t,
        {
            let b = key[t];
            let bu = b as usize;
            if bu < B || bu - B >= R {
                let rep = if bu >= B {
                    bu - B
                } else {
                    bu
                };
                proof {
                    assert(!offset_in_alphabet(key_offset(key@[t as int], B as int), R as int));
                    assert(rep as int == reported_offset(key@[t as int], B as int));
                    assert(self.paths_set().contains(kseq.take(t as int))) by {
                        assert(self.has_path(self.path(node as int)));
                    }
                }
                return Err(Error::KeyNotInAlphabet { value: rep, size: R });
            }
            let c = bu - B;
            assert(kseq[t as int] == c as int);
            proof {
                lemma_flat_index(self.n(), R as int, node as int, c as int);
            }
            let ch = self.children[node * R + c];
            assert(ch as int == self.child(node as int, c as int));
            if ch != 0 {
                proof {
                    lemma_take_push(kseq, t as int);
                    assert(self.path(ch as int) == kseq.take(t as int + 1));
                }
                node = ch;
                t += 1;
            } else {
                proof {
                    lemma_take_push(kseq, t as int);
                    assert(!self.has_path(kseq.take(t as int + 1)));
                    self.lemma_no_deeper_paths(kseq, t as int);
                }
                assert(self.paths_set().contains(kseq.take(t as int))) by {
                    assert(self.has_path(self.path(node as int)));
                }
                return Ok((t, &None));
            }
        }
        proof {
            assert(kseq.take(t as int) == kseq);
            assert(self.paths_set().contains(kseq)) by {
                assert(self.has_path(self.path(node as int)));
            }
            if self.words().dom().contains(kseq) {
                assert(self.node_at(kseq) == node as int);
            } else {
                if self.values@[node as int] is Some {
                    assert(self.has_path(kseq));
                    assert(self.node_at(kseq) == node as int);
                    assert(false);
                }
            }
        }
        Ok((t, &self.values[node]))
    }

    /// Once an extension of the walked prefix is missing, every deeper
    /// extension is missing too, by prefix closure.
    proof fn lemma_no_deeper_paths(self, kseq: Seq<int>, t: int)
        requires
            self.wf(),
            0 <= t < kseq.len(),
            !self.has_path(kseq.take(t + 1)),
        ensures
            forall|e: int| t < e <= kseq.len() ==> !self.paths_set().contains(#[trigger] kseq.take(e)),
    {
        assert forall|e: int| t < e <= kseq.len() implies !self.paths_set().contains(
            #[trigger] kseq.take(e),
        ) by {
            if self.has_path(kseq.take(e)) {
                let j = choose|j: int| 0 <= j < self.n() && self.path(j) == kseq.take(e);
                assert(self.path(j).take(t + 1) == kseq.take(e).take(t + 1));
                assert(kseq.take(e).take(t + 1) == kseq.take(t + 1));
                assert(self.has_path(self.path(j).take(t + 1)));
            }
        }
    }

    /// Re-establishes the invariant after hanging a fresh node `new_idx`
    /// under `parent` along offset `c`.
    proof fn lemma_attach_node(&self, prev: Self, parent: int, c: int, new_idx: int)
        requires
            prev.wf(),
            0 <= parent < prev.n(),
            0 <= c < R,
            new_idx == prev.n(),
            prev.child(parent, c) == 0,
            self.n() == prev.n() + 1,
            self.children.len() == self.n() * (R as int),
            self.values@ == prev.values@.push(None),
            self.children@.take(prev.children.len() as int) == prev.children@.update(
                parent * (R as int) + c,
                new_idx as usize,
            ),
            forall|k: int|
                prev.children.len() <= k < self.children.len() ==> self.children@[k] == 0usize,
            self.paths@ == prev.paths@.insert(new_idx, prev.path(parent).push(c)),
        ensures
            self.wf(),
            self.path(new_idx) == prev.path(parent).push(c),
            !prev.has_path(prev.path(parent).push(c)),
            forall|p: Seq<int>| self.has_path(p) <==> (prev.has_path(p) || p == prev.path(parent).push(c)),
            self.words() =~= prev.words(),
            self.paths_set() =~= prev.paths_set().insert(prev.path(parent).push(c)),
    {
        let pnew = prev.path(parent).push(c);
        assert((prev.n() + 1) * (R as int) == prev.n() * (R as int) + (R as int))
            by (nonlinear_arith);
        assert(prev.children.len() <= self.children.len());
        assert(!prev.has_path(pnew));
        assert(forall|i: int| 0 <= i < prev.n() ==> self.path(i) == prev.path(i));
        assert(self.path(new_idx) == pnew);
        // old slots keep their contents, except the updated one
        assert forall|i: int, cc: int| 0 <= i < prev.n() && 0 <= cc < R implies #[trigger] self
            .child(i, cc) == (if i == parent && cc == c {
            new_idx
        } else {
            prev.child(i, cc)
        }) by {
            let rr = R as int;
            let s2 = i * rr + cc;
            let sg = parent * rr + c;
            let bound = prev.children.len() as int;
            lemma_flat_index(prev.n(), rr, i, cc);
            lemma_flat_index(prev.n(), rr, parent, c);
            lemma_flat_index_injective(prev.n(), rr, i, cc, parent, c);
            assert(0 <= s2 < bound);
            assert(self.children@.take(bound)[s2] == self.children@[s2]);
            assert(prev.children@.update(sg, new_idx as usize)[s2] == (if s2 == sg {
                new_idx as usize
            } else {
                prev.children@[s2]
            }));
            assert(self.children@.take(bound) == prev.children@.update(sg, new_idx as usize));
        }
        assert forall|cc: int| 0 <= cc < R implies #[trigger] self.child(new_idx, cc) == 0 by {
            lemma_flat_index(self.n(), R as int, new_idx, cc);
            assert(prev.children.len() <= new_idx * (R as int) + cc) by {
                assert(prev.n() * (R as int) <= new_idx * (R as int)) by (nonlinear_arith)
                    requires new_idx == prev.n();
            }
        }
        // injectivity
        assert forall|i: int, j: int|
            0 <= i < self.n() && 0 <= j < self.n() && i != j implies #[trigger] self.path(i)
            != #[trigger] self.path(j) by {
            if i < prev.n() && j < prev.n() {
                assert(prev.path(i) != prev.path(j));
            } else if i == new_idx {
                assert(self.path(j) != pnew);
            } else {
                assert(self.path(i) != pnew);
            }
        }
        // links
        assert forall|i: int, cc: int| 0 <= i < self.n() && 0 <= cc < R implies {
            &&& (#[trigger] self.child(i, cc) != 0 ==> 0 < self.child(i, cc) < self.n()
                && self.path(self.child(i, cc)) == self.path(i).push(cc))
            &&& (self.child(i, cc) != 0 <==> self.has_path(self.path(i).push(cc)))
        } by {
            if i == new_idx {
                assert(self.child(i, cc) == 0);
                if self.has_path(pnew.push(cc)) {
                    let j = choose|j: int| 0 <= j < self.n() && self.path(j) == pnew.push(cc);
                    if j < prev.n() {
                        assert(prev.path(j).take(prev.path(j).len() - 1) == pnew) by {
                            lemma_take_all_but_last(prev.path(j), pnew, cc);
                        }
                        assert(prev.has_path(pnew));
                        assert(false);
                    } else {
                        assert(self.path(j) == pnew);
                        assert(pnew.len() == pnew.push(cc).len());
                        assert(false);
                    }
                }
            } else if i == parent && cc == c {
                assert(self.child(i, cc) == new_idx);
                assert(self.path(new_idx) == self.path(i).push(cc));
                assert(self.has_path(self.path(i).push(cc)));
            } else {
                assert(self.child(i, cc) == prev.child(i, cc));
                if prev.child(i, cc) != 0 {
                    assert(self.path(self.child(i, cc)) == self.path(i).push(cc));
                    assert(self.has_path(self.path(i).push(cc)));
                } else {
                    assert(!prev.has_path(prev.path(i).push(cc)));
                    if self.has_path(self.path(i).push(cc)) {
                        let j = choose|j: int|
                            0 <= j < self.n() && self.path(j) == self.path(i).push(cc);
                        if j < prev.n() {
                            assert(prev.has_path(prev.path(i).push(cc)));
                            assert(false);
                        } else {
                            assert(pnew == prev.path(i).push(cc));
                            lemma_push_injective(prev.path(parent), c, prev.path(i), cc);
                            assert(false);
                        }
                    }
                }
            }
        }
        // prefix closure
        assert forall|i: int, k: int|
            0 <= i < self.n() && 0 <= k <= self.path(i).len() implies self.has_path(
            #[trigger] self.path(i).take(k),
        ) by {
            if i < prev.n() {
                assert(prev.has_path(prev.path(i).take(k)));
                let j = choose|j: int| 0 <= j < prev.n() && prev.path(j) == prev.path(i).take(k);
                assert(self.path(j) == self.path(i).take(k));
            } else {
                if k <= prev.path(parent).len() {
                    assert(pnew.take(k) == prev.path(parent).take(k)) by {
                        lemma_push_take(prev.path(parent), c, k);
                    }
                    assert(prev.has_path(prev.path(parent).take(k)));
                    let j = choose|j: int|
                        0 <= j < prev.n() && prev.path(j) == prev.path(parent).take(k);
                    assert(self.path(j) == pnew.take(k));
                } else {
                    assert(k == pnew.len());
                    assert(pnew.take(k) == pnew);
                    assert(self.path(new_idx) == pnew.take(k));
                }
            }
        }
        // valid offsets
        assert forall|i: int, k: int|
            0 <= i < self.n() && 0 <= k < self.path(i).len() implies offset_in_alphabet(
            #[trigger] self.path(i)[k],
            R as int,
        ) by {
            if i < prev.n() {
                assert(prev.path(i)[k] == self.path(i)[k]);
            } else {
                if k < prev.path(parent).len() {
                    assert(pnew[k] == prev.path(parent)[k]);
                } else {
                    assert(pnew[k] == c);
                }
            }
        }
        // path membership before and after
        assert forall|p: Seq<int>| self.has_path(p) <==> (prev.has_path(p) || p == pnew) by {
            assert forall|p: Seq<int>| #[trigger] self.has_path(p) implies (prev.has_path(p) || p
                == pnew) by {
                let j = choose|j: int| 0 <= j < self.n() && self.path(j) == p;
                if j < prev.n() {
                    assert(prev.has_path(p));
                }
            }
            assert forall|p: Seq<int>| prev.has_path(p) || p == pnew implies self.has_path(p) by {
                if prev.has_path(p) {
                    let j = choose|j: int| 0 <= j < prev.n() && prev.path(j) == p;
                    assert(self.path(j) == p);
                } else {
                    assert(self.path(new_idx) == p);
                }
            }
        }
        // words unchanged: the new node holds no value
        assert forall|p: Seq<int>|
            #![trigger self.words().dom().contains(p)]
            #![trigger prev.words().dom().contains(p)]
            true implies {
            &&& (self.words().dom().contains(p) == prev.words().dom().contains(p))
            &&& (self.words().dom().contains(p) ==> self.words()[p] == prev.words()[p])
        } by {
            if prev.has_path(p) {
                let j = prev.node_at(p);
                assert(0 <= j < prev.n() && prev.path(j) == p);
                assert(self.path(j) == p);
                assert(self.has_path(p));
                let j2 = self.node_at(p);
                assert(0 <= j2 < self.n() && self.path(j2) == p);
                if j2 == new_idx {
                    assert(p == pnew);
                    assert(false);
                }
                assert(j2 == j);
                assert(self.values@[j] == prev.values@[j]);
            } else if p == pnew {
                assert(self.has_path(p));
                let j2 = self.node_at(p);
                assert(j2 == new_idx);
                assert(self.values@[new_idx] is None);
            } else {
                assert(!self.has_path(p));
            }
        }
    }
}

/// A flat slot index stays within a table of `n * rr` slots.
proof fn lemma_flat_index(n: int, rr: int, i: int, c: int)
    requires
        0 <= i < n,
        0 <= c < rr,
    ensures
        0 <= i * rr + c < n * rr,
{
    assert(0 <= i * rr + c < n * rr) by (nonlinear_arith)
        requires
            0 <= i < n,
            0 <= c < rr,
    ;
}

/// Two (node, offset) pairs use the same flat slot exactly when they agree.
proof fn lemma_flat_index_injective(n: int, rr: int, i: int, c: int, j: int, d: int)
    requires
        0 <= i < n,
        0 <= c < rr,
        0 <= j < n,
        0 <= d < rr,
    ensures
        i * rr + c == j * rr + d <==> (i == j && c == d),
{
    assert(i * rr + c == j * rr + d <==> (i == j && c == d)) by (nonlinear_arith)
        requires
            0 <= i < n,
            0 <= c < rr,
            0 <= j < n,
            0 <= d < rr,
    ;
}

/// Extending a take by the element at its end.
proof fn lemma_take_push(s: Seq<int>, t: int)
    requires
        0 <= t < s.len(),
    ensures
        s.take(t).push(s[t]) == s.take(t + 1),
{
    assert(s.take(t).push(s[t]) =~= s.take(t + 1));
}

/// Two pushes agree only when base and element both agree.
proof fn lemma_push_injective(p1: Seq<int>, c1: int, p2: Seq<int>, c2: int)
    requires
        p1.push(c1) == p2.push(c2),
    ensures
        p1 == p2 && c1 == c2,
{
    assert(p1.push(c1).len() == p1.len() + 1);
    assert(p2.push(c2).len() == p2.len() + 1);
    assert(p1.len() == p2.len());
    assert(p1.push(c1)[p1.len() as int] == c1);
    assert(p2.push(c2)[p2.len() as int] == c2);
    assert(p1 =~= p2) by {
        assert forall|k: int| 0 <= k < p1.len() implies p1[k] == p2[k] by {
            assert(p1.push(c1)[k] == p1[k]);
            assert(p2.push(c2)[k] == p2[k]);
        }
    }
}

/// Dropping the pushed element gives back the base sequence.
proof fn lemma_take_all_but_last(q: Seq<int>, p: Seq<int>, c: int)
    requires
        q == p.push(c),
    ensures
        q.take(q.len() - 1) == p,
{
    assert(q.take(q.len() - 1) =~= p);
}

/// A take commutes with a push that lies past the taken part.
proof fn lemma_push_take(p: Seq<int>, c: int, k: int)
    requires
        0 <= k <= p.len(),
    ensures
        p.push(c).take(k) == p.take(k),
{
    assert(p.push(c).take(k) =~= p.take(k));
}

/// The prefixes of one more element are the previous prefixes and the longer
/// take.
proof fn lemma_prefixes_step(kseq: Seq<int>, t: int)
    requires
        0 <= t < kseq.len(),
    ensures
        prefixes_of(kseq.take(t + 1)) =~= prefixes_of(kseq.take(t)).insert(kseq.take(t + 1)),
{
    assert forall|q: Seq<int>| #[trigger] prefixes_of(kseq.take(t + 1)).contains(q) implies
        prefixes_of(kseq.take(t)).insert(kseq.take(t + 1)).contains(q) by {
        let e = choose|e: int| 0 <= e <= kseq.take(t + 1).len() && q == #[trigger] kseq.take(t + 1).take(e);
        if e <= t {
            assert(kseq.take(t + 1).take(e) =~= kseq.take(t).take(e));
            assert(prefixes_of(kseq.take(t)).contains(q));
        } else {
            assert(q =~= kseq.take(t + 1));
        }
    }
    assert forall|q: Seq<int>| #[trigger] prefixes_of(kseq.take(t)).insert(kseq.take(t + 1)).contains(
        q,
    ) implies prefixes_of(kseq.take(t + 1)).contains(q) by {
        if prefixes_of(kseq.take(t)).contains(q) {
            let e = choose|e: int| 0 <= e <= kseq.take(t).len() && q == #[trigger] kseq.take(t).take(e);
            assert(kseq.take(t).take(e) =~= kseq.take(t + 1).take(e));
        } else {
            assert(q == kseq.take(t + 1));
            assert(q =~= kseq.take(t + 1).take(t + 1));
        }
    }
}


/// A set of words based on a [`Trie`].
pub struct TrieSet<const R: usize, const B: usize> {
    trie: Trie<R, B, ()>,
}

impl<const R: usize, const B: usize> TrieSet<R, B> {
    /// Structural invariant, inherited from the trie.
    pub closed spec fn wf(self) -> bool {
        self.trie.wf()
    }

    /// The keys inserted so far, as offset sequences.
    pub closed spec fn words(self) -> Set<Seq<int>> {
        self.trie.words().dom()
    }

    /// The prefixes walked during insertions, as offset sequences.
    pub closed spec fn paths(self) -> Set<Seq<int>> {
        self.trie.paths_set()
    }

    /// Initialize an empty set.
    pub fn new() -> (r: Self)
        ensures
            r.wf(),
            r.words() == Set::<Seq<int>>::empty(),
            r.paths() == Set::<Seq<int>>::empty().insert(Seq::<int>::empty()),
    {
        let r = Self { trie: Trie::new() };
        proof {
            assert(r.words() =~= Set::<Seq<int>>::empty());
        }
        r
    }

    /// Insert a value (key) into the set.
    pub fn insert(&mut self, key: &[u8]) -> (r: Result<(), Error>)
        requires
            old(self).wf(),
        ensures
            final(self).wf(),
            match r {
                Ok(()) => {
                    &&& forall|t: int|
                        0 <= t < key@.len() ==> offset_in_alphabet(
                            key_offset(#[trigger] key@[t], B as int),
                            R as int,
                        )
                    &&& final(self).words() == old(self).words().insert(
                        key_offsets(key@, B as int),
                    )
                    &&& final(self).paths() == old(self).paths().union(
                        prefixes_of(key_offsets(key@, B as int)),
                    )
                },
                Err(e) => {
                    &&& exists|t: int|
                        {
                            &&& 0 <= t < key@.len()
                            &&& !offset_in_alphabet(key_offset(#[trigger] key@[t], B as int), R as int)
                            &&& (forall|u: int|
                                0 <= u < t ==> offset_in_alphabet(
                                    key_offset(#[trigger] key@[u], B as int),
                                    R as int,
                                ))
                            &&& e == (Error::KeyNotInAlphabet {
                                value: reported_offset(key@[t], B as int) as usize,
                                size: R,
                            })
                            &&& final(self).paths() == old(self).paths().union(
                                prefixes_of(key_offsets(key@, B as int).take(t)),
                            )
                        }
                    &&& final(self).words() == old(self).words()
                },
            },
    {
        let r = self.trie.insert(key, ());
        proof {
            if r is Ok {
                assert(self.trie.words().dom() =~= old(self).trie.words().dom().insert(
                    key_offsets(key@, B as int),
                ));
            } else {
                assert(self.trie.words().dom() =~= old(self).trie.words().dom());
            }
        }
        r
    }

    /// Returns true when the value (key) has been inserted, otherwise false.
    pub fn contains(&self, key: &[u8]) -> (r: Result<bool, Error>)
        requires
            self.wf(),
        ensures
            match r {
                Ok(b) => b == self.words().contains(key_offsets(key@, B as int)),
                Err(e) => exists|t: int|
                    {
                        &&& 0 <= t < key@.len()
                        &&& !offset_in_alphabet(key_offset(#[trigger] key@[t], B as int), R as int)
                        &&& (forall|u: int|
                            0 <= u < t ==> offset_in_alphabet(
                                key_offset(#[trigger] key@[u], B as int),
                                R as int,
                            ))
                        &&& self.paths().contains(key_offsets(key@, B as int).take(t))
                        &&& e == (Error::KeyNotInAlphabet {
                            value: reported_offset(key@[t], B as int) as usize,
                            size: R,
                        })
                    },
            },
    {
        let ghost kseq = key_offsets(key@, B as int);
        match self.trie.prefix(key) {
            Ok((depth, value)) => {
                let present = value.is_some();
                proof {
                    assert(kseq.len() == key@.len());
                    if self.words().contains(kseq) {
                        assert(self.trie.has_path(kseq));
                        assert(self.paths().contains(kseq.take(kseq.len() as int))) by {
                            assert(kseq.take(kseq.len() as int) == kseq);
                        }
                        assert(depth == key@.len());
                    }
                }
                Ok(present)
            },
            Err(e) => Err(e),
        }
    }

    /// Returns `key.len() + 1` when the value (key) has been inserted,
    /// otherwise the length of the longest stored prefix of the key.
    pub fn prefix_score(&self, key: &[u8]) -> (r: Result<usize, Error>)
        requires
            self.wf(),
            key@.len() < usize::MAX,
        ensures
            match r {
                Ok(score) => {
                    let kseq = key_offsets(key@, B as int);
                    &&& (self.words().contains(kseq) ==> score == key@.len() + 1)
                    &&& (!self.words().contains(kseq) ==> {
                        &&& score <= key@.len()
                        &&& self.paths().contains(kseq.take(score as int))
                        &&& forall|e: int|
                            score < e <= key@.len() ==> !self.paths().contains(
                                #[trigger] kseq.take(e),
                            )
                    })
                },
                Err(e) => exists|t: int|
                    {
                        &&& 0 <= t < key@.len()
                        &&& !offset_in_alphabet(key_offset(#[trigger] key@[t], B as int), R as int)
                        &&& (forall|u: int|
                            0 <= u < t ==> offset_in_alphabet(
                                key_offset(#[trigger] key@[u], B as int),
                                R as int,
                            ))
                        &&& self.paths().contains(key_offsets(key@, B as int).take(t))
                        &&& e == (Error::KeyNotInAlphabet {
                            value: reported_offset(key@[t], B as int) as usize,
                            size: R,
                        })
                    },
            },
    {
        let ghost kseq = key_offsets(key@, B as int);
        match self.trie.prefix(key) {
            Ok((depth, value)) => {
                proof {
                    assert(kseq.len() == key@.len());
                    if self.words().contains(kseq) {
                        assert(self.trie.has_path(kseq));
                        assert(self.paths().contains(kseq.take(kseq.len() as int))) by {
                            assert(kseq.take(kseq.len() as int) == kseq);
                        }
                        assert(depth == key@.len());
                    }
                }
                if value.is_some() {
                    Ok(depth + 1)
                } else {
                    Ok(depth)
                }
            },
            Err(e) => Err(e),
        }
    }
}

} // verus!

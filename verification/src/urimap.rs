//! An insertion-ordered map keyed by file identifiers, the shared store
//! under the dependency graph, the caches, the activity tracker and the
//! diagnostics gate.

use vstd::prelude::*;

use crate::uri::FileUri;

verus! {

/// Association of a key's bytes with a value, first match wins.
pub open spec fn assoc_find<V>(s: Seq<(FileUri, V)>, k: Seq<u8>) -> Option<V>
    decreases s.len(),
{
    if s.len() == 0 {
        None
    } else if s[0].0@ == k {
        Some(s[0].1)
    } else {
        assoc_find(s.drop_first(), k)
    }
}

/// No two entries share a key.
pub open spec fn distinct_keys<V>(s: Seq<(FileUri, V)>) -> bool {
    forall|p: int, q: int| 0 <= p < q < s.len() ==> s[p].0@ != s[q].0@
}

proof fn lemma_find_skip<V>(s: Seq<(FileUri, V)>, k: Seq<u8>, i: int)
    requires
        0 <= i <= s.len(),
        forall|j: int| 0 <= j < i ==> s[j].0@ != k,
    ensures
        assoc_find(s, k) == assoc_find(s.skip(i), k),
    decreases i,
{
    if i > 0 {
        assert(s[0].0@ != k);
        lemma_find_skip(s.drop_first(), k, i - 1);
        assert(s.drop_first().skip(i - 1) =~= s.skip(i));
    } else {
        assert(s.skip(0) =~= s);
    }
}

proof fn lemma_find_update<V>(s: Seq<(FileUri, V)>, i: int, kv: (FileUri, V), k2: Seq<u8>)
    requires
        0 <= i < s.len(),
        distinct_keys(s),
        s[i].0@ == kv.0@,
    ensures
        assoc_find(s.update(i, kv), k2) == if k2 == kv.0@ {
            Some(kv.1)
        } else {
            assoc_find(s, k2)
        },
    decreases i,
{
    let s2 = s.update(i, kv);
    if i == 0 {
        if k2 != kv.0@ {
            assert(s2.drop_first() =~= s.drop_first());
        }
    } else {
        assert(s2[0] == s[0]);
        if s[0].0@ == k2 {
        } else {
            assert(s.drop_first().update(i - 1, kv) =~= s2.drop_first());
            assert(distinct_keys(s.drop_first())) by {
                assert(forall|p: int, q: int|
                    0 <= p < q < s.drop_first().len() ==> s.drop_first()[p].0@
                        != s.drop_first()[q].0@);
            }
            lemma_find_update(s.drop_first(), i - 1, kv, k2);
        }
    }
}

proof fn lemma_find_push<V>(s: Seq<(FileUri, V)>, kv: (FileUri, V), k2: Seq<u8>)
    requires
        assoc_find(s, kv.0@) is None,
    ensures
        assoc_find(s.push(kv), k2) == if k2 == kv.0@ {
            Some(kv.1)
        } else {
            assoc_find(s, k2)
        },
    decreases s.len(),
{
    let s2 = s.push(kv);
    if s.len() == 0 {
        assert(s2[0] == kv);
        if k2 != kv.0@ {
            assert(assoc_find(s2, k2) == assoc_find(s2.drop_first(), k2));
            assert(s2.drop_first() =~= s);
        }
    } else {
        assert(s2[0] == s[0]);
        assert(s[0].0@ != kv.0@);
        if s[0].0@ == k2 {
        } else {
            assert(s.drop_first().push(kv) =~= s2.drop_first());
            lemma_find_push(s.drop_first(), kv, k2);
        }
    }
}

proof fn lemma_find_remove<V>(s: Seq<(FileUri, V)>, i: int, k2: Seq<u8>)
    requires
        0 <= i < s.len(),
        distinct_keys(s),
    ensures
        assoc_find(s.remove(i), k2) == if k2 == s[i].0@ {
            None
        } else {
            assoc_find(s, k2)
        },
    decreases i,
{
    let s2 = s.remove(i);
    if i == 0 {
        assert(s2 =~= s.drop_first());
        if k2 == s[0].0@ {
            assert(forall|j: int| 0 <= j < s2.len() ==> s2[j].0@ != k2);
            lemma_find_none(s2, k2);
        }
    } else {
        assert(s2[0] == s[0]);
        if s[0].0@ == k2 {
            assert(k2 != s[i].0@);
        } else {
            assert(s.drop_first().remove(i - 1) =~= s2.drop_first());
            assert(distinct_keys(s.drop_first()));
            lemma_find_remove(s.drop_first(), i - 1, k2);
        }
    }
}

proof fn lemma_find_none<V>(s: Seq<(FileUri, V)>, k: Seq<u8>)
    requires
        forall|j: int| 0 <= j < s.len() ==> s[j].0@ != k,
    ensures
        assoc_find(s, k) is None,
    decreases s.len(),
{
    if s.len() > 0 {
        lemma_find_none(s.drop_first(), k);
    }
}

/// An insertion-ordered association map with byte-exact keys.
pub struct UriMap<V> {
    entries: Vec<(FileUri, V)>,
}

impl<V> UriMap<V> {
    /// Keys never repeat.
    pub closed spec fn wf(self) -> bool {
        distinct_keys(self.entries@)
    }

    /// The value stored under `k`, if any.
    pub closed spec fn spec_get(self, k: Seq<u8>) -> Option<V> {
        assoc_find(self.entries@, k)
    }

    /// The keys, oldest insertion first.
    pub closed spec fn keys(self) -> Seq<Seq<u8>> {
        self.entries@.map_values(|e: (FileUri, V)| e.0@)
    }

    /// The values, in key order.
    pub closed spec fn values(self) -> Seq<V> {
        self.entries@.map_values(|e: (FileUri, V)| e.1)
    }

    /// A key is listed exactly when a value is stored under it.
    pub proof fn lemma_keys(self)
        requires
            self.wf(),
        ensures
            forall|k: Seq<u8>| self.keys().contains(k) == (self.spec_get(k) is Some),
            forall|p: int, q: int|
                0 <= p < q < self.keys().len() ==> self.keys()[p] != self.keys()[q],
            self.keys().len() == self.values().len(),
    {
        assert forall|k: Seq<u8>| self.keys().contains(k) == (self.spec_get(k) is Some) by {
            if self.keys().contains(k) {
                let i = choose|i: int| 0 <= i < self.keys().len() && self.keys()[i] == k;
                self.lemma_at(i);
            } else {
                assert forall|j: int|
                    0 <= j < self.entries@.len() implies self.entries@[j].0@ != k by {
                    assert(self.keys()[j] == self.entries@[j].0@);
                }
                lemma_find_none(self.entries@, k);
            }
        }
    }

    /// The entry at position `i` is what lookup by its key returns.
    pub proof fn lemma_at(self, i: int)
        requires
            self.wf(),
            0 <= i < self.keys().len(),
        ensures
            self.spec_get(self.keys()[i]) == Some(self.values()[i]),
    {
        lemma_find_skip(self.entries@, self.entries@[i].0@, i);
        assert(self.entries@.skip(i)[0] == self.entries@[i]);
    }

    /// An empty map.
    pub fn new() -> (r: UriMap<V>)
        ensures
            r.wf(),
            forall|k: Seq<u8>| r.spec_get(k) is None,
            r.keys().len() == 0,
    {
        let r = UriMap { entries: Vec::new() };
        proof {
            assert forall|k: Seq<u8>| r.spec_get(k) is None by {
                lemma_find_none(r.entries@, k);
            }
        }
        r
    }

    /// How many entries are stored.
    pub fn len(&self) -> (r: usize)
        ensures
            r == self.keys().len(),
    {
        self.entries.len()
    }

    /// The key at position `i`, oldest insertion first.
    pub fn key_at(&self, i: usize) -> (r: &FileUri)
        requires
            i < self.keys().len(),
        ensures
            r@ == self.keys()[i as int],
    {
        &self.entries[i].0
    }

    /// The value at position `i`.
    pub fn val_at(&self, i: usize) -> (r: &V)
        requires
            i < self.keys().len(),
        ensures
            *r == self.values()[i as int],
    {
        &self.entries[i].1
    }

    fn find_index(&self, k: &FileUri) -> (r: Option<usize>)
        requires
            self.wf(),
        ensures
            match r {
                Some(i) => i < self.keys().len() && self.keys()[i as int] == k@
                    && self.spec_get(k@) == Some(self.values()[i as int]),
                None => self.spec_get(k@) is None,
            },
    {
        let mut i: usize = 0;
        while i < self.entries.len()
            invariant
                self.wf(),
                i <= self.entries@.len(),
                forall|j: int| 0 <= j < i ==> self.entries@[j].0@ != k@,
        decreases self.entries@.len() - i,
        {
            if self.entries[i].0.same_as(k) {
                proof {
                    self.lemma_at(i as int);
                }
                return Some(i);
            }
            i += 1;
        }
        proof {
            lemma_find_none(self.entries@, k@);
        }
        None
    }

    /// Lookup without touching the stored order.
    pub fn get(&self, k: &FileUri) -> (r: Option<&V>)
        requires
            self.wf(),
        ensures
            match r {
                Some(v) => self.spec_get(k@) == Some(*v),
                None => self.spec_get(k@) is None,
            },
    {
        match self.find_index(k) {
            Some(i) => Some(&self.entries[i].1),
            None => None,
        }
    }

    /// Whether a value is stored under `k`.
    pub fn contains_key(&self, k: &FileUri) -> (r: bool)
        requires
            self.wf(),
        ensures
            r == (self.spec_get(k@) is Some),
    {
        self.find_index(k).is_some()
    }

    /// Store `v` under `k`, replacing in place or appending at the end.
    pub fn insert(&mut self, k: FileUri, v: V)
        requires
            old(self).wf(),
        ensures
            final(self).wf(),
            forall|k2: Seq<u8>|
                final(self).spec_get(k2) == if k2 == k@ {
                    Some(v)
                } else {
                    old(self).spec_get(k2)
                },
            old(self).spec_get(k@) is Some ==> final(self).keys() == old(self).keys(),
            old(self).spec_get(k@) is None ==> final(self).keys() == old(self).keys().push(k@),
    {
        let idx = self.find_index(&k);
        match idx {
            Some(i) => {
                let ghost s = self.entries@;
                let kvx = (k, v);
                let ghost kv = kvx;
                self.entries.remove(i);
                self.entries.insert(i, kvx);
                proof {
                    assert(self.entries@ =~= s.update(i as int, kv));
                    assert forall|k2: Seq<u8>|
                        self.spec_get(k2) == if k2 == k@ {
                            Some(v)
                        } else {
                            assoc_find(s, k2)
                        } by {
                        lemma_find_update(s, i as int, kv, k2);
                    }
                    assert(self.keys() =~= s.map_values(|e: (FileUri, V)| e.0@));
                }
            },
            None => {
                let ghost s = self.entries@;
                let kvx = (k, v);
                let ghost kv = kvx;
                self.entries.push(kvx);
                proof {
                    assert forall|k2: Seq<u8>|
                        self.spec_get(k2) == if k2 == k@ {
                            Some(v)
                        } else {
                            assoc_find(s, k2)
                        } by {
                        lemma_find_push(s, kv, k2);
                    }
                    assert(self.keys() =~= s.map_values(|e: (FileUri, V)| e.0@).push(k@));
                    assert forall|p: int, q: int|
                        0 <= p < q < self.entries@.len() implies self.entries@[p].0@
                        != self.entries@[q].0@ by {
                        if q == s.len() {
                            if self.entries@[p].0@ == k@ {
                                lemma_find_skip(s, k@, p);
                                assert(s.skip(p)[0] == s[p]);
                            }
                        }
                    }
                }
            },
        }
    }

    /// Drop the entry under `k` and return its value.
    pub fn remove(&mut self, k: &FileUri) -> (r: Option<V>)
        requires
            old(self).wf(),
        ensures
            final(self).wf(),
            r == old(self).spec_get(k@),
            forall|k2: Seq<u8>|
                final(self).spec_get(k2) == if k2 == k@ {
                    None::<V>
                } else {
                    old(self).spec_get(k2)
                },
            final(self).keys().len() == if old(self).spec_get(k@) is Some {
                old(self).keys().len() - 1
            } else {
                old(self).keys().len() as int
            },
    {
        let idx = self.find_index(k);
        match idx {
            Some(i) => {
                let ghost s = self.entries@;
                let e = self.entries.remove(i);
                proof {
                    assert forall|k2: Seq<u8>|
                        self.spec_get(k2) == if k2 == k@ {
                            None::<V>
                        } else {
                            assoc_find(s, k2)
                        } by {
                        lemma_find_remove(s, i as int, k2);
                    }
                }
                Some(e.1)
            },
            None => None,
        }
    }
}

} // verus!

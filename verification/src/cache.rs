//! The bounded per-file metadata cache: least-recently-used eviction,
//! with each file's parsed metadata held in its stable byte encoding.

use vstd::prelude::*;

use crate::codec::deserialize;
use crate::codec::deserialize_spec;
use crate::codec::serialize;
use crate::codec::serialize_spec;
use crate::types::CrossFileMetadata;
use crate::types::MetadataView;
use crate::uri::FileUri;
use crate::uri::clone_bytes;

verus! {

/// Capacity used when none, or zero, is configured.
pub const DEFAULT_METADATA_CACHE_CAPACITY: usize = 1000;

#[verifier::external_type_specification]
#[verifier::external_body]
#[verifier::reject_recursive_types(K)]
#[verifier::reject_recursive_types(V)]
#[verifier::reject_recursive_types(S)]
pub struct ExLruCache<K, V, S>(lru::LruCache<K, V, S>);

/// The store under the cache: an LRU map from key bytes to encoded
/// metadata, hashed by std's `RandomState`.
pub type LruStore = lru::LruCache<Vec<u8>, Vec<u8>, std::collections::hash_map::RandomState>;

/// What the cache holds: key and value pairs, most recently used first.
pub uninterp spec fn lru_contents(c: LruStore) -> Seq<(Seq<u8>, Seq<u8>)>;

/// The bound the cache was made with.
pub uninterp spec fn lru_cap(c: LruStore) -> nat;

/// The keys of stored pairs, most recently used first.
pub open spec fn keys_of(s: Seq<(Seq<u8>, Seq<u8>)>) -> Seq<Seq<u8>> {
    s.map_values(|e: (Seq<u8>, Seq<u8>)| e.0)
}

/// Pairs with the given key taken out, order kept.
pub open spec fn without_key(s: Seq<(Seq<u8>, Seq<u8>)>, k: Seq<u8>) -> Seq<(Seq<u8>, Seq<u8>)>
    decreases s.len(),
{
    if s.len() == 0 {
        Seq::empty()
    } else {
        let r = without_key(s.drop_last(), k);
        if s.last().0 == k {
            r
        } else {
            r.push(s.last())
        }
    }
}

/// The value stored under `k`, if any; under distinct keys the position
/// does not matter.
pub open spec fn find_val(s: Seq<(Seq<u8>, Seq<u8>)>, k: Seq<u8>) -> Option<Seq<u8>> {
    if keys_of(s).contains(k) {
        let i = choose|i: int| 0 <= i < s.len() && s[i].0 == k;
        Some(s[i].1)
    } else {
        None
    }
}

/// Relies on lru::LruCache::new: an empty cache holding at most `cap`
/// entries.
#[verifier::external_body]
fn lru_new(cap: usize) -> (c: LruStore)
    requires
        cap >= 1,
    ensures
        lru_contents(c) == Seq::<(Seq<u8>, Seq<u8>)>::empty(),
        lru_cap(c) == cap,
{
    lru::LruCache::with_hasher(
        std::num::NonZeroUsize::new(cap).unwrap(),
        std::collections::hash_map::RandomState::new(),
    )
}

/// Relies on lru::LruCache::push: the pair becomes the most recent; an
/// entry already under the key is replaced in place of promotion order;
/// a full cache drops its least recent entry.
#[verifier::external_body]
fn lru_push(c: &mut LruStore, k: Vec<u8>, v: Vec<u8>)
    ensures
        lru_cap(*final(c)) == lru_cap(*old(c)),
        lru_contents(*final(c)) == if keys_of(lru_contents(*old(c))).contains(k@) {
            seq![(k@, v@)] + without_key(lru_contents(*old(c)), k@)
        } else if lru_contents(*old(c)).len() < lru_cap(*old(c)) {
            seq![(k@, v@)] + lru_contents(*old(c))
        } else {
            seq![(k@, v@)] + lru_contents(*old(c)).drop_last()
        },
{
    let _ = c.push(k, v);
}

/// Relies on lru::LruCache::peek: returns the stored value without
/// promoting the entry.
#[verifier::external_body]
fn lru_peek(c: &LruStore, k: &Vec<u8>) -> (r: Option<Vec<u8>>)
    ensures
        match r {
            Some(v) => find_val(lru_contents(*c), k@) == Some(v@),
            None => find_val(lru_contents(*c), k@) is None,
        },
{
    c.peek(k).cloned()
}

/// Relies on lru::LruCache::pop: removes the entry under the key and
/// returns its value.
#[verifier::external_body]
fn lru_pop(c: &mut LruStore, k: &Vec<u8>) -> (r: Option<Vec<u8>>)
    ensures
        lru_cap(*final(c)) == lru_cap(*old(c)),
        lru_contents(*final(c)) == without_key(lru_contents(*old(c)), k@),
        match r {
            Some(v) => find_val(lru_contents(*old(c)), k@) == Some(v@),
            None => find_val(lru_contents(*old(c)), k@) is None,
        },
{
    c.pop(k)
}

/// Relies on lru::LruCache::resize: a shrinking cache drops least-recent
/// entries until it fits.
#[verifier::external_body]
fn lru_resize(c: &mut LruStore, cap: usize)
    requires
        cap >= 1,
    ensures
        lru_cap(*final(c)) == cap,
        lru_contents(*final(c)) == if lru_contents(*old(c)).len() <= cap {
            lru_contents(*old(c))
        } else {
            lru_contents(*old(c)).subrange(0, cap as int)
        },
{
    c.resize(std::num::NonZeroUsize::new(cap).unwrap())
}

/// No key repeats among the stored pairs.
pub open spec fn distinct_pair_keys(s: Seq<(Seq<u8>, Seq<u8>)>) -> bool {
    forall|i: int, j: int| 0 <= i < j < s.len() ==> s[i].0 != s[j].0
}

proof fn lemma_without_key_membership(s: Seq<(Seq<u8>, Seq<u8>)>, k: Seq<u8>, p: (Seq<u8>, Seq<u8>))
    ensures
        without_key(s, k).contains(p) == (s.contains(p) && p.0 != k),
    decreases s.len(),
{
    if s.len() > 0 {
        lemma_without_key_membership(s.drop_last(), k, p);
        let r = without_key(s.drop_last(), k);
        if s.last().0 == k {
            if s.contains(p) && p.0 != k {
                let i = choose|i: int| 0 <= i < s.len() && s[i] == p;
                assert(s.drop_last()[i] == p);
            }
        } else {
            if without_key(s, k).contains(p) {
                let i = choose|i: int|
                    0 <= i < without_key(s, k).len() && without_key(s, k)[i] == p;
                if i < r.len() {
                    assert(r.contains(p));
                }
                if s.drop_last().contains(p) {
                    let j = choose|j: int|
                        0 <= j < s.drop_last().len() && s.drop_last()[j] == p;
                    assert(s[j] == p);
                }
                if p == s.last() {
                    assert(s.contains(p));
                }
            }
            if s.contains(p) && p.0 != k {
                let i = choose|i: int| 0 <= i < s.len() && s[i] == p;
                if i < s.len() - 1 {
                    assert(s.drop_last()[i] == p);
                    let j = choose|j: int| 0 <= j < r.len() && r[j] == p;
                    assert(without_key(s, k)[j] == p);
                } else {
                    assert(without_key(s, k).last() == p);
                }
            }
            if s.drop_last().contains(p) {
                let j = choose|j: int| 0 <= j < s.drop_last().len() && s.drop_last()[j] == p;
                assert(s[j] == p);
            }
        }
    }
}

proof fn lemma_without_key_distinct(s: Seq<(Seq<u8>, Seq<u8>)>, k: Seq<u8>)
    requires
        distinct_pair_keys(s),
    ensures
        distinct_pair_keys(without_key(s, k)),
        forall|p: (Seq<u8>, Seq<u8>)|
            #[trigger] without_key(s, k).contains(p) == (s.contains(p) && p.0 != k),
        !keys_of(without_key(s, k)).contains(k),
    decreases s.len(),
{
    assert forall|p: (Seq<u8>, Seq<u8>)|
        #[trigger] without_key(s, k).contains(p) == (s.contains(p) && p.0 != k) by {
        lemma_without_key_membership(s, k, p);
    }
    if s.len() > 0 {
        assert(distinct_pair_keys(s.drop_last())) by {
            assert(forall|i: int, j: int|
                0 <= i < j < s.drop_last().len() ==> s.drop_last()[i].0 != s.drop_last()[j].0);
        }
        lemma_without_key_distinct(s.drop_last(), k);
        let r = without_key(s.drop_last(), k);
        if s.last().0 == k {
        } else {
            let w = without_key(s, k);
            assert forall|i: int, j: int|
                0 <= i < j < w.len() implies w[i].0 != w[j].0 by {
                if j == w.len() - 1 {
                    assert(w[j] == s.last());
                    assert(r.contains(w[i]));
                    lemma_without_key_membership(s.drop_last(), k, w[i]);
                    assert(s.drop_last().contains(w[i]));
                    let p = choose|p: int|
                        0 <= p < s.drop_last().len() && s.drop_last()[p] == w[i];
                    assert(s[p] == w[i]);
                    assert(s[p].0 != s.last().0);
                } else {
                    assert(w[i] == r[i] && w[j] == r[j]);
                }
            }
        }
    }
    if keys_of(without_key(s, k)).contains(k) {
        let i = choose|i: int|
            0 <= i < keys_of(without_key(s, k)).len() && keys_of(without_key(s, k))[i] == k;
        assert(without_key(s, k)[i].0 == k);
        assert(without_key(s, k).contains(without_key(s, k)[i]));
    }
}

/// Under distinct keys, lookup is fixed by pair membership.
proof fn lemma_find_from_member(s: Seq<(Seq<u8>, Seq<u8>)>, p: (Seq<u8>, Seq<u8>))
    requires
        distinct_pair_keys(s),
        s.contains(p),
    ensures
        find_val(s, p.0) == Some(p.1),
{
    let i = choose|i: int| 0 <= i < s.len() && s[i] == p;
    assert(keys_of(s)[i] == p.0);
    assert(keys_of(s).contains(p.0));
    let j = choose|j: int| 0 <= j < s.len() && s[j].0 == p.0;
    if i != j {
        assert(s[i].0 == s[j].0);
        assert(false);
    }
}

proof fn lemma_find_none(s: Seq<(Seq<u8>, Seq<u8>)>, k: Seq<u8>)
    requires
        !keys_of(s).contains(k),
    ensures
        find_val(s, k) is None,
        forall|i: int| 0 <= i < s.len() ==> s[i].0 != k,
{
    assert forall|i: int| 0 <= i < s.len() implies s[i].0 != k by {
        assert(keys_of(s)[i] == s[i].0);
    }
}

/// Bounded per-file metadata store with least-recently-used eviction.
pub struct MetadataCache {
    inner: LruStore,
}

impl MetadataCache {
    /// The stored pairs, most recently used first.
    pub closed spec fn contents(self) -> Seq<(Seq<u8>, Seq<u8>)> {
        lru_contents(self.inner)
    }

    /// The stored keys, most recently used first.
    pub open spec fn cache_keys(self) -> Seq<Seq<u8>> {
        keys_of(self.contents())
    }

    /// The configured bound.
    pub closed spec fn capacity(self) -> nat {
        lru_cap(self.inner)
    }

    /// Keys never repeat, the store never exceeds its bound, and every
    /// stored value decodes.
    pub closed spec fn wf(self) -> bool {
        &&& distinct_pair_keys(self.contents())
        &&& self.contents().len() <= self.capacity()
        &&& self.capacity() >= 1
        &&& forall|i: int|
            0 <= i < self.contents().len() ==> (#[trigger] deserialize_spec(
                self.contents()[i].1,
            )) is Some
    }

    /// The metadata stored under `k`, if any.
    pub closed spec fn metadata_at(self, k: Seq<u8>) -> Option<MetadataView> {
        match find_val(self.contents(), k) {
            Some(b) => deserialize_spec(b),
            None => None,
        }
    }

    /// A cache bounded by `cap` entries; a zero bound falls back to the
    /// default.
    pub fn with_capacity(cap: usize) -> (r: MetadataCache)
        ensures
            r.wf(),
            r.cache_keys().len() == 0,
            forall|k: Seq<u8>| r.metadata_at(k) is None,
            r.capacity() == if cap >= 1 {
                cap as int
            } else {
                DEFAULT_METADATA_CACHE_CAPACITY as int
            },
    {
        let cap = crate::non_zero_or(cap, DEFAULT_METADATA_CACHE_CAPACITY);
        let r = MetadataCache { inner: lru_new(cap) };
        proof {
            assert(keys_of(r.contents()) =~= Seq::<Seq<u8>>::empty());
            assert forall|k: Seq<u8>| r.metadata_at(k) is None by {
                assert(!keys_of(r.contents()).contains(k));
            }
        }
        r
    }

    /// A cache with the default bound.
    pub fn new() -> (r: MetadataCache)
        ensures
            r.wf(),
            r.cache_keys().len() == 0,
            forall|k: Seq<u8>| r.metadata_at(k) is None,
            r.capacity() == DEFAULT_METADATA_CACHE_CAPACITY as int,
    {
        MetadataCache::with_capacity(DEFAULT_METADATA_CACHE_CAPACITY)
    }

    /// Look the metadata up without touching recency.
    pub fn get(&self, uri: &FileUri) -> (r: Option<CrossFileMetadata>)
        requires
            self.wf(),
        ensures
            match r {
                Some(m) => self.metadata_at(uri@) == Some(m@),
                None => self.metadata_at(uri@) is None,
            },
    {
        match lru_peek(&self.inner, uri.as_bytes()) {
            Some(b) => {
                proof {
                    assert(keys_of(self.contents()).contains(uri@));
                    let i = choose|i: int|
                        0 <= i < self.contents().len() && self.contents()[i].0 == uri@;
                    assert(deserialize_spec(self.contents()[i].1) is Some);
                    lemma_find_from_member(self.contents(), self.contents()[i]);
                }
                let m = deserialize(&b);
                match m {
                    Some(m) => Some(m),
                    None => None,
                }
            },
            None => None,
        }
    }

    /// Store `meta` under `uri` as the most recent entry; a full cache
    /// drops its least recent entry.
    #[verifier::rlimit(60)]
    pub fn insert(&mut self, uri: FileUri, meta: CrossFileMetadata)
        requires
            old(self).wf(),
        ensures
            final(self).wf(),
            final(self).capacity() == old(self).capacity(),
            final(self).metadata_at(uri@) == Some(meta@),
            final(self).cache_keys() == if old(self).cache_keys().contains(uri@) {
                seq![uri@] + keys_of(without_key(old(self).contents(), uri@))
            } else if old(self).cache_keys().len() < old(self).capacity() {
                seq![uri@] + old(self).cache_keys()
            } else {
                seq![uri@] + old(self).cache_keys().drop_last()
            },
            forall|k2: Seq<u8>|
                k2 != uri@ ==> (#[trigger] final(self).metadata_at(k2)) == (
                if final(self).cache_keys().contains(k2) {
                    old(self).metadata_at(k2)
                } else {
                    None
                }),
    {
        let bytes = serialize(&meta);
        let ghost s0 = self.contents();
        proof {
            assert(crate::codec::encodable(meta@)) by {
                assert(meta.sourced_by.len() == meta.sourced_by@.len());
                assert(meta.sources.len() == meta.sources@.len());
                assert(meta.ignored_lines.len() == meta.ignored_lines@.len());
                assert(meta.ignored_next_lines.len() == meta.ignored_next_lines@.len());
                assert forall|i: int|
                    0 <= i < meta@.sourced_by.len() implies (#[trigger] meta@.sourced_by[i])
                    .path.len() <= u64::MAX && match meta@.sourced_by[i].call_site {
                    crate::types::CallView::Match(p) => p.len() <= u64::MAX,
                    _ => true,
                } by {
                    assert(meta@.sourced_by[i] == meta.sourced_by@[i]@);
                    assert(meta.sourced_by@[i].path.len() == meta.sourced_by@[i].path@.len());
                    match meta.sourced_by@[i].call_site {
                        crate::types::CallSiteSpec::Match(p) => {
                            assert(p.len() == p@.len());
                        },
                        _ => {},
                    }
                }
                assert forall|i: int|
                    0 <= i < meta@.sources.len() implies (#[trigger] meta@.sources[i]).len()
                    <= u64::MAX by {
                    assert(meta@.sources[i] == meta.sources@[i]@);
                    assert(meta.sources@[i].path.len() == meta.sources@[i].path@.len());
                }
                match meta.working_directory {
                    Some(ref p) => {
                        assert(p.len() == p@.len());
                    },
                    None => {},
                }
            }
            crate::codec::lemma_metadata_round_trip(meta@);
            assert(deserialize_spec(bytes@) == Some(meta@));
        }
        lru_push(&mut self.inner, clone_bytes(uri.as_bytes()), bytes);
        proof {
            let s1 = self.contents();
            let kv = (uri@, serialize_spec(meta@));
            lemma_without_key_distinct(s0, uri@);
            // the three shapes share a head; name the tail
            let tail = if keys_of(s0).contains(uri@) {
                without_key(s0, uri@)
            } else if s0.len() < old(self).capacity() {
                s0
            } else {
                s0.drop_last()
            };
            assert(s1 == seq![kv] + tail);
            assert(s1[0] == kv);
            assert forall|i: int| 0 <= i < tail.len() implies s1[i + 1] == tail[i] by {}
            // tail is made of old pairs without the new key repeated
            assert forall|p: (Seq<u8>, Seq<u8>)|
                #[trigger] tail.contains(p) implies s0.contains(p) by {
                if !keys_of(s0).contains(uri@) && s0.len() >= old(self).capacity() {
                    let i = choose|i: int| 0 <= i < tail.len() && tail[i] == p;
                    assert(s0[i] == p);
                }
            }
            assert forall|p: (Seq<u8>, Seq<u8>)|
                #[trigger] tail.contains(p) implies p.0 != uri@ by {
                if keys_of(s0).contains(uri@) {
                } else {
                    lemma_find_none(s0, uri@);
                }
            }
            // distinct keys hold in the new contents
            assert(distinct_pair_keys(tail)) by {
                if keys_of(s0).contains(uri@) {
                } else if s0.len() < old(self).capacity() {
                } else {
                    assert(forall|i: int, j: int|
                        0 <= i < j < tail.len() ==> tail[i].0 != tail[j].0);
                }
            }
            assert forall|i: int, j: int|
                0 <= i < j < s1.len() implies s1[i].0 != s1[j].0 by {
                if i == 0 {
                    assert(s1[j] == tail[j - 1]);
                    assert(tail.contains(tail[j - 1]));
                } else {
                    assert(s1[i] == tail[i - 1]);
                    assert(s1[j] == tail[j - 1]);
                }
            }
            // every stored value still decodes
            assert forall|i: int|
                0 <= i < s1.len() implies (#[trigger] deserialize_spec(s1[i].1)) is Some by {
                if i == 0 {
                    assert(deserialize_spec(bytes@) == deserialize_spec(kv.1));
                } else {
                    assert(s1[i] == tail[i - 1]);
                    assert(tail.contains(tail[i - 1]));
                    assert(s0.contains(tail[i - 1]));
                    let p = choose|p: int| 0 <= p < s0.len() && s0[p] == tail[i - 1];
                    assert(deserialize_spec(s0[p].1) is Some);
                }
            }
            // the bound still holds
            assert(s1.len() <= self.capacity()) by {
                if keys_of(s0).contains(uri@) {
                    let i = choose|i: int| 0 <= i < s0.len() && s0[i].0 == uri@;
                    assert(keys_of(s0)[i] == s0[i].0);
                    lemma_without_key_shorter(s0, uri@, i);
                }
            }
            // the advertised key sequence
            assert(self.cache_keys() =~= seq![uri@] + keys_of(tail));
            assert(keys_of(s0).len() == s0.len());
            if !(keys_of(s0).contains(uri@)) && s0.len() >= old(self).capacity() {
                assert(keys_of(s0.drop_last()) =~= keys_of(s0).drop_last());
            }
            // the new entry
            lemma_find_from_member(s1, kv);
            // other keys
            assert forall|k2: Seq<u8>|
                k2 != uri@ implies (#[trigger] self.metadata_at(k2)) == (
                if self.cache_keys().contains(k2) {
                    old(self).metadata_at(k2)
                } else {
                    None
                }) by {
                if keys_of(s1).contains(k2) {
                    let i = choose|i: int| 0 <= i < s1.len() && s1[i].0 == k2;
                    assert(keys_of(s1)[i] == s1[i].0);
                    assert(i > 0);
                    assert(s1[i] == tail[i - 1]);
                    assert(tail.contains(tail[i - 1]));
                    assert(s0.contains(s1[i]));
                    lemma_find_from_member(s1, s1[i]);
                    lemma_find_from_member(s0, s1[i]);
                } else {
                    lemma_find_none(s1, k2);
                }
            }
        }
    }

    /// Drop the entry under `uri`.
    pub fn remove(&mut self, uri: &FileUri)
        requires
            old(self).wf(),
        ensures
            final(self).wf(),
            final(self).capacity() == old(self).capacity(),
            final(self).metadata_at(uri@) is None,
            forall|k2: Seq<u8>|
                k2 != uri@ ==> (#[trigger] final(self).metadata_at(k2)) == old(
                    self,
                ).metadata_at(k2),
            forall|k: Seq<u8>|
                (#[trigger] final(self).cache_keys().contains(k))
                    == (old(self).cache_keys().contains(k) && k != uri@),
    {
        let ghost s0 = self.contents();
        let _ = lru_pop(&mut self.inner, uri.as_bytes());
        proof {
            lemma_without_key_distinct(s0, uri@);
            let s1 = self.contents();
            assert(s1.len() <= s0.len()) by {
                lemma_without_key_len(s0, uri@);
            }
            assert forall|i: int|
                0 <= i < s1.len() implies (#[trigger] deserialize_spec(s1[i].1)) is Some by {
                assert(s1.contains(s1[i]));
                assert(s0.contains(s1[i]));
                let p = choose|p: int| 0 <= p < s0.len() && s0[p] == s1[i];
            }
            if keys_of(s1).contains(uri@) {
                let i = choose|i: int| 0 <= i < s1.len() && s1[i].0 == uri@;
                assert(keys_of(s1)[i] == s1[i].0);
                assert(s1.contains(s1[i]));
            }
            lemma_find_none(s1, uri@);
            assert forall|k2: Seq<u8>|
                k2 != uri@ implies (#[trigger] self.metadata_at(k2)) == old(
                    self,
                ).metadata_at(k2) by {
                if keys_of(s1).contains(k2) {
                    let i = choose|i: int| 0 <= i < s1.len() && s1[i].0 == k2;
                    assert(keys_of(s1)[i] == s1[i].0);
                    assert(s1.contains(s1[i]));
                    assert(s0.contains(s1[i]));
                    lemma_find_from_member(s1, s1[i]);
                    lemma_find_from_member(s0, s1[i]);
                } else {
                    lemma_find_none(s1, k2);
                    if keys_of(s0).contains(k2) {
                        let i = choose|i: int| 0 <= i < s0.len() && s0[i].0 == k2;
                        assert(keys_of(s0)[i] == s0[i].0);
                        assert(s0.contains(s0[i]));
                        assert(s1.contains(s0[i]));
                        assert(keys_of(s1)[choose|j: int|
                            0 <= j < s1.len() && s1[j] == s0[i]] == k2);
                    }
                    lemma_find_none(s0, k2);
                }
            }
            assert forall|k: Seq<u8>|
                (#[trigger] keys_of(s1).contains(k)) == (keys_of(s0).contains(k) && k
                    != uri@) by {
                if keys_of(s1).contains(k) {
                    let i = choose|i: int| 0 <= i < s1.len() && keys_of(s1)[i] == k;
                    assert(s1[i].0 == k);
                    assert(s1.contains(s1[i]));
                    assert(s0.contains(s1[i]));
                    let p = choose|p: int| 0 <= p < s0.len() && s0[p] == s1[i];
                    assert(keys_of(s0)[p] == k);
                }
                if keys_of(s0).contains(k) && k != uri@ {
                    let i = choose|i: int| 0 <= i < s0.len() && keys_of(s0)[i] == k;
                    assert(s0[i].0 == k);
                    assert(s0.contains(s0[i]));
                    assert(s1.contains(s0[i]));
                    let p = choose|p: int| 0 <= p < s1.len() && s1[p] == s0[i];
                    assert(keys_of(s1)[p] == k);
                }
            }
        }
    }

    /// Drop the entries under each given identifier, taking the store's
    /// exclusive access once, and say how many were present: one for each
    /// listed identifier whose entry still stood when its turn came.
    #[verifier::rlimit(60)]
    pub fn invalidate_many(&mut self, uris: &Vec<FileUri>) -> (r: usize)
        requires
            old(self).wf(),
        ensures
            final(self).wf(),
            final(self).capacity() == old(self).capacity(),
            forall|k: Seq<u8>|
                (#[trigger] final(self).metadata_at(k)) == if crate::uri::uris_view(
                    uris@,
                ).contains(k) {
                    None::<MetadataView>
                } else {
                    old(self).metadata_at(k)
                },
            r == removed_count(old(self).cache_keys(), crate::uri::uris_view(uris@)),
            r <= uris@.len(),
    {
        let ghost uv = crate::uri::uris_view(uris@);
        let mut count: usize = 0;
        let mut i: usize = 0;
        proof {
            assert(uv.skip(0) =~= uv);
        }
        while i < uris.len()
            invariant
                i <= uris@.len(),
                count <= i,
                uv == crate::uri::uris_view(uris@),
                self.wf(),
                self.capacity() == old(self).capacity(),
                count + removed_count(self.cache_keys(), uv.skip(i as int)) == removed_count(
                    old(self).cache_keys(),
                    uv,
                ),
                forall|k: Seq<u8>|
                    (#[trigger] self.metadata_at(k)) == if crate::uri::uris_view(
                        uris@.subrange(0, i as int),
                    ).contains(k) {
                        None::<MetadataView>
                    } else {
                        old(self).metadata_at(k)
                    },
            decreases uris@.len() - i,
        {
            let ghost prev = *self;
            let ghost ki = uv[i as int];
            let hit = {
                let probe = lru_peek(&self.inner, uris[i].as_bytes());
                probe.is_some()
            };
            proof {
                assert(ki == uris@[i as int]@);
                assert(hit == prev.cache_keys().contains(ki)) by {
                    if keys_of(prev.contents()).contains(ki) {
                    } else {
                        lemma_find_none(prev.contents(), ki);
                    }
                }
            }
            if hit {
                count += 1;
            }
            self.remove(&uris[i]);
            proof {
                assert(crate::uri::uris_view(uris@)[i as int] == uris@[i as int]@);
                // the counted total is conserved by this step
                assert(uv.skip(i as int)[0] == ki);
                assert(uv.skip(i as int).drop_first() =~= uv.skip(i + 1));
                assert(removed_count(prev.cache_keys(), uv.skip(i as int)) == (if prev
                    .cache_keys().contains(ki) {
                    1int
                } else {
                    0int
                }) + removed_count(
                    crate::graph::remove_all(prev.cache_keys(), ki),
                    uv.skip(i + 1),
                ));
                assert forall|x: Seq<u8>|
                    (#[trigger] self.cache_keys().contains(x)) == crate::graph::remove_all(
                        prev.cache_keys(),
                        ki,
                    ).contains(x) by {
                    crate::graph::lemma_remove_all(prev.cache_keys(), ki, x);
                }
                lemma_removed_count_same(
                    self.cache_keys(),
                    crate::graph::remove_all(prev.cache_keys(), ki),
                    uv.skip(i + 1),
                );
                assert forall|k: Seq<u8>|
                    (#[trigger] self.metadata_at(k)) == if crate::uri::uris_view(
                        uris@.subrange(0, i + 1),
                    ).contains(k) {
                        None::<MetadataView>
                    } else {
                        old(self).metadata_at(k)
                    } by {
                    let va = crate::uri::uris_view(uris@.subrange(0, i + 1));
                    let vb = crate::uri::uris_view(uris@.subrange(0, i as int));
                    assert(va =~= vb.push(uris@[i as int]@));
                    crate::graph::lemma_contains_push_seq(vb, uris@[i as int]@, k);
                }
            }
            i += 1;
        }
        proof {
            assert(crate::uri::uris_view(uris@.subrange(0, uris@.len() as int))
                =~= crate::uri::uris_view(uris@));
            assert(uv.skip(i as int) =~= Seq::<Seq<u8>>::empty());
            assert(removed_count(self.cache_keys(), uv.skip(i as int)) == 0);
        }
        count
    }

    /// Change the bound; shrinking drops least-recent entries first.
    pub fn resize(&mut self, cap: usize)
        requires
            old(self).wf(),
        ensures
            final(self).wf(),
            final(self).capacity() == if cap >= 1 {
                cap as int
            } else {
                DEFAULT_METADATA_CACHE_CAPACITY as int
            },
            final(self).cache_keys() == if old(self).cache_keys().len()
                <= final(self).capacity() {
                old(self).cache_keys()
            } else {
                old(self).cache_keys().subrange(0, final(self).capacity() as int)
            },
            forall|k: Seq<u8>|
                (#[trigger] final(self).metadata_at(k))
                    == if final(self).cache_keys().contains(k) {
                    old(self).metadata_at(k)
                } else {
                    None
                },
    {
        let cap = crate::non_zero_or(cap, DEFAULT_METADATA_CACHE_CAPACITY);
        let ghost s0 = self.contents();
        lru_resize(&mut self.inner, cap);
        proof {
            let s1 = self.contents();
            if s0.len() > cap {
                assert(s1 == s0.subrange(0, cap as int));
                assert(forall|i: int, j: int| 0 <= i < j < s1.len() ==> s1[i] == s0[i] && s1[j] == s0[j]);
                assert(keys_of(s1) =~= keys_of(s0).subrange(0, cap as int));
            }
            assert forall|i: int|
                0 <= i < s1.len() implies (#[trigger] deserialize_spec(s1[i].1)) is Some by {
                if s0.len() > cap {
                    assert(s1[i] == s0[i]);
                }
                assert(s0.contains(s1[i]) || deserialize_spec(s1[i].1) is Some) by {
                    if s0.len() > cap {
                        assert(s0[i] == s1[i]);
                        assert(s0.contains(s1[i]));
                    } else {
                        assert(deserialize_spec(s0[i].1) is Some);
                    }
                }
                if s0.contains(s1[i]) {
                    let p = choose|p: int| 0 <= p < s0.len() && s0[p] == s1[i];
                }
            }
            assert forall|k: Seq<u8>|
                (#[trigger] self.metadata_at(k)) == if self.cache_keys().contains(k) {
                    old(self).metadata_at(k)
                } else {
                    None
                } by {
                if self.cache_keys().contains(k) {
                    let i = choose|i: int| 0 <= i < s1.len() && keys_of(s1)[i] == k;
                    assert(s1[i].0 == k);
                    assert(s1.contains(s1[i]));
                    lemma_find_from_member(s1, s1[i]);
                    if s0.len() > cap {
                        assert(s1[i] == s0[i]);
                    }
                    assert(s0.contains(s1[i]));
                    lemma_find_from_member(s0, s1[i]);
                } else {
                    lemma_find_none(s1, k);
                }
            }
        }
    }
}

proof fn lemma_without_key_len(s: Seq<(Seq<u8>, Seq<u8>)>, k: Seq<u8>)
    ensures
        without_key(s, k).len() <= s.len(),
    decreases s.len(),
{
    if s.len() > 0 {
        lemma_without_key_len(s.drop_last(), k);
    }
}

proof fn lemma_without_key_shorter(s: Seq<(Seq<u8>, Seq<u8>)>, k: Seq<u8>, at: int)
    requires
        0 <= at < s.len(),
        s[at].0 == k,
    ensures
        without_key(s, k).len() < s.len(),
    decreases s.len(),
{
    if s.len() > 0 {
        if at == s.len() - 1 {
            lemma_without_key_len(s.drop_last(), k);
        } else {
            assert(s.drop_last()[at] == s[at]);
            lemma_without_key_shorter(s.drop_last(), k, at);
        }
    }
}

/// How many of the listed identifiers hit a stored entry when removed in
/// turn: a repeat of an already-removed identifier counts nothing.
pub open spec fn removed_count(keys: Seq<Seq<u8>>, uris: Seq<Seq<u8>>) -> int
    decreases uris.len(),
{
    if uris.len() == 0 {
        0
    } else {
        (if keys.contains(uris[0]) {
            1int
        } else {
            0int
        }) + removed_count(crate::graph::remove_all(keys, uris[0]), uris.drop_first())
    }
}

proof fn lemma_removed_count_same(a: Seq<Seq<u8>>, b: Seq<Seq<u8>>, uris: Seq<Seq<u8>>)
    requires
        forall|x: Seq<u8>| a.contains(x) == b.contains(x),
    ensures
        removed_count(a, uris) == removed_count(b, uris),
    decreases uris.len(),
{
    if uris.len() > 0 {
        assert forall|x: Seq<u8>|
            crate::graph::remove_all(a, uris[0]).contains(x) == crate::graph::remove_all(
                b,
                uris[0],
            ).contains(x) by {
            crate::graph::lemma_remove_all(a, uris[0], x);
            crate::graph::lemma_remove_all(b, uris[0], x);
        }
        lemma_removed_count_same(
            crate::graph::remove_all(a, uris[0]),
            crate::graph::remove_all(b, uris[0]),
            uris.drop_first(),
        );
    }
}

/// The bound holds at every well-formed state: a cache with capacity k
/// never stores more than k entries. Which k entries stay — the most
/// recently inserted or updated — is fixed by the contracts of `insert`
/// and `resize`: a full insert drops exactly the least recent key, and a
/// shrink keeps exactly the most recent ones.
pub proof fn lemma_lru_bound(c: MetadataCache)
    requires
        c.wf(),
    ensures
        c.cache_keys().len() <= c.capacity(),
{
}

impl Default for MetadataCache {
    /// A cache with the default bound.
    fn default() -> (r: MetadataCache)
        ensures
            r.wf(),
            r.cache_keys().len() == 0,
            forall|k: Seq<u8>| r.metadata_at(k) is None,
            r.capacity() == DEFAULT_METADATA_CACHE_CAPACITY as int,
    {
        MetadataCache::new()
    }
}

} // verus!

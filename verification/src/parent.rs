//! The parent resolver: when several files could be a child's parent, a
//! deterministic winner is chosen — open files first, then higher
//! activity, then the lexicographically smallest identifier — and the
//! alternatives are reported, never raised as an error.

use vstd::prelude::*;

use crate::uri::FileUri;
use crate::uri::lex_less;
use crate::urimap::UriMap;

verus! {

/// One possible parent, with what the selection orders by and the call
/// site its directive carried.
pub struct ParentCandidate {
    /// The candidate parent file.
    pub uri: FileUri,
    /// Whether it is open in the editor.
    pub is_open: bool,
    /// Its activity priority; lower is better.
    pub score: u128,
    /// Call-site line carried by the winning directive, if any.
    pub line: Option<u32>,
    /// Call-site column carried by the winning directive, if any.
    pub column: Option<u32>,
}

/// The result of parent selection.
pub enum ParentResolution {
    /// Exactly one candidate existed.
    Single {
        /// The parent.
        parent_uri: FileUri,
        /// Call-site line, if the directive carried one.
        call_site_line: Option<u32>,
        /// Call-site column, if the directive carried one.
        call_site_column: Option<u32>,
    },
    /// Several candidates existed; a deterministic winner was chosen and
    /// the rest are reported.
    Ambiguous {
        /// The chosen parent.
        selected_uri: FileUri,
        /// Its call-site line, if any.
        selected_line: Option<u32>,
        /// Its call-site column, if any.
        selected_column: Option<u32>,
        /// The candidates passed over, in their given order.
        alternatives: Vec<FileUri>,
    },
    /// No candidate exists.
    NoParent,
}

/// The selection order: open before closed, then by ascending score,
/// then by identifier bytes. A total order over distinct identifiers.
pub open spec fn cand_le(a: ParentCandidate, b: ParentCandidate) -> bool {
    let ra: int = if a.is_open {
        0
    } else {
        1
    };
    let rb: int = if b.is_open {
        0
    } else {
        1
    };
    ||| ra < rb
    ||| (ra == rb && a.score < b.score)
    ||| (ra == rb && a.score == b.score && (lex_less(a.uri@, b.uri@) || a.uri@ == b.uri@))
}

/// Does `a` strictly precede `b` in the selection order?
fn cand_before(a: &ParentCandidate, b: &ParentCandidate) -> (r: bool)
    ensures
        r ==> cand_le(*a, *b),
        !r ==> cand_le(*b, *a),
{
    proof {
        if !(lex_less(a.uri@, b.uri@)) && a.uri@ != b.uri@ {
            crate::reval::lemma_lex_total(a.uri@, b.uri@);
        }
    }
    if a.is_open && !b.is_open {
        true
    } else if !a.is_open && b.is_open {
        false
    } else if a.score != b.score {
        a.score < b.score
    } else {
        a.uri.lex_before(&b.uri)
    }
}

/// Choose the parent deterministically: no candidate yields nothing;
/// otherwise the selection steps — open first, then activity, then the
/// smallest identifier — always leave one winner, reported as `Single`
/// with its directive's call site.
pub fn resolve_parent(candidates: Vec<ParentCandidate>) -> (r: ParentResolution)
    ensures
        candidates@.len() == 0 <==> r is NoParent,
        candidates@.len() >= 1 ==> (r matches ParentResolution::Single {
            parent_uri,
            call_site_line,
            call_site_column,
        } && (exists|w: int|
            0 <= w < candidates@.len() && (#[trigger] candidates@[w]).uri@ == parent_uri@
                && candidates@[w].line == call_site_line && candidates@[w].column
                == call_site_column && forall|j: int|
                0 <= j < candidates@.len() ==> cand_le(
                    candidates@[w],
                    #[trigger] candidates@[j],
                ))),
{
    if candidates.len() == 0 {
        return ParentResolution::NoParent;
    }
    let mut best: usize = 0;
    let mut i: usize = 1;
    while i < candidates.len()
        invariant
            candidates@.len() >= 1,
            best < i <= candidates@.len(),
            forall|j: int|
                0 <= j < i ==> cand_le(candidates@[best as int], #[trigger] candidates@[j]),
        decreases candidates@.len() - i,
    {
        if cand_before(&candidates[i], &candidates[best]) {
            proof {
                assert forall|j: int|
                    0 <= j < i + 1 implies cand_le(
                    candidates@[i as int],
                    #[trigger] candidates@[j],
                ) by {
                    if j < i {
                        lemma_cand_trans(
                            candidates@[i as int],
                            candidates@[best as int],
                            candidates@[j],
                        );
                    }
                }
            }
            best = i;
        }
        i += 1;
    }
    ParentResolution::Single {
        parent_uri: candidates[best].uri.duplicate(),
        call_site_line: candidates[best].line,
        call_site_column: candidates[best].column,
    }
}

/// The selection order is transitive.
pub proof fn lemma_cand_trans(a: ParentCandidate, b: ParentCandidate, c: ParentCandidate)
    requires
        cand_le(a, b),
        cand_le(b, c),
    ensures
        cand_le(a, c),
{
    if a.is_open == b.is_open && b.is_open == c.is_open && a.score == b.score && b.score
        == c.score {
        if lex_less(a.uri@, b.uri@) && lex_less(b.uri@, c.uri@) {
            crate::reval::lemma_lex_trans(a.uri@, b.uri@, c.uri@);
        }
    }
}

/// Cache key for a child's parent resolution: the child metadata's
/// fingerprint and the hash of its reverse edges. Equal keys must yield
/// equal resolutions, so a differing key is a miss.
#[derive(Clone, Copy, Debug, PartialEq, Eq, Structural)]
pub struct ParentCacheKey {
    /// Fingerprint of the child's parsed metadata.
    pub metadata_fingerprint: u64,
    /// Hash of the reverse edges pointing at the child.
    pub reverse_edges_hash: u64,
}

/// Cache of parent resolutions keyed by child and context key.
pub struct ParentCache {
    entries: UriMap<(ParentCacheKey, ParentResolution)>,
}

impl ParentCache {
    /// Stored keys never repeat.
    pub closed spec fn wf(self) -> bool {
        self.entries.wf()
    }

    /// The key and resolution stored for a child.
    pub closed spec fn entry_of(self, child: Seq<u8>) -> Option<(
        ParentCacheKey,
        ParentResolution,
    )> {
        self.entries.spec_get(child)
    }

    /// An empty cache.
    pub fn new() -> (r: ParentCache)
        ensures
            r.wf(),
            forall|u: Seq<u8>| r.entry_of(u) is None,
    {
        ParentCache { entries: UriMap::new() }
    }

    /// The stored resolution, only under a matching key.
    pub fn get(&self, child: &FileUri, key: ParentCacheKey) -> (r: Option<&ParentResolution>)
        requires
            self.wf(),
        ensures
            match r {
                Some(p) => {
                    &&& self.entry_of(child@) is Some
                    &&& self.entry_of(child@)->Some_0.0 == key
                    &&& *p == self.entry_of(child@)->Some_0.1
                },
                None => match self.entry_of(child@) {
                    Some(e) => e.0 != key,
                    None => true,
                },
            },
    {
        match self.entries.get(child) {
            Some(e) => {
                if e.0 == key {
                    Some(&e.1)
                } else {
                    None
                }
            },
            None => None,
        }
    }

    /// Store a resolution for a child under its context key.
    pub fn insert(&mut self, child: &FileUri, key: ParentCacheKey, res: ParentResolution)
        requires
            old(self).wf(),
        ensures
            final(self).wf(),
            final(self).entry_of(child@) == Some((key, res)),
            forall|u: Seq<u8>| u != child@ ==> final(self).entry_of(u) == old(self).entry_of(u),
    {
        self.entries.insert(child.duplicate(), (key, res));
    }

    /// Purge every entry of this child.
    pub fn invalidate(&mut self, child: &FileUri)
        requires
            old(self).wf(),
        ensures
            final(self).wf(),
            final(self).entry_of(child@) is None,
            forall|u: Seq<u8>| u != child@ ==> final(self).entry_of(u) == old(self).entry_of(u),
    {
        let _ = self.entries.remove(child);
    }
}

} // verus!

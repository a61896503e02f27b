//! The scope-artifacts cache: per-file analysis results keyed by a
//! four-component fingerprint whose bit-equality is the sole freshness test.

use vstd::prelude::*;

use crate::uri::FileUri;
use crate::urimap::UriMap;

verus! {

/// Freshness certificate of a file's analysis: self content, incoming
/// edges, upstream interfaces, and the workspace index version.
#[derive(Clone, Copy, Debug, PartialEq, Eq, Structural)]
pub struct ScopeFingerprint {
    /// Hash of the file's own content.
    pub self_hash: u64,
    /// Hash of the file's incoming edges.
    pub edges_hash: u64,
    /// Hash of the interfaces exported by upstream files.
    pub upstream_interfaces_hash: u64,
    /// Version counter of the workspace index.
    pub workspace_index_version: u64,
}

/// Cache of opaque per-file analysis artifacts, each stored with the
/// fingerprint it was computed under.
pub struct ScopeCache<A> {
    entries: UriMap<(ScopeFingerprint, A)>,
}

impl<A> ScopeCache<A> {
    /// Stored keys never repeat.
    pub closed spec fn wf(self) -> bool {
        self.entries.wf()
    }

    /// The fingerprint and artifacts stored for `uri`, if any.
    pub closed spec fn entry_of(self, uri: Seq<u8>) -> Option<(ScopeFingerprint, A)> {
        self.entries.spec_get(uri)
    }

    /// An empty cache.
    pub fn new() -> (r: ScopeCache<A>)
        ensures
            r.wf(),
            forall|u: Seq<u8>| r.entry_of(u) is None,
    {
        ScopeCache { entries: UriMap::new() }
    }

    /// Return the stored artifacts exactly when the stored fingerprint
    /// equals `fp` in every component; any mismatch is a miss.
    pub fn get_if_fresh(&self, uri: &FileUri, fp: ScopeFingerprint) -> (r: Option<&A>)
        requires
            self.wf(),
        ensures
            match r {
                Some(a) => {
                    &&& self.entry_of(uri@) is Some
                    &&& self.entry_of(uri@)->Some_0.0 == fp
                    &&& *a == self.entry_of(uri@)->Some_0.1
                },
                None => match self.entry_of(uri@) {
                    Some(e) => e.0 != fp,
                    None => true,
                },
            },
    {
        match self.entries.get(uri) {
            Some(e) => {
                if e.0 == fp {
                    Some(&e.1)
                } else {
                    None
                }
            },
            None => None,
        }
    }

    /// Return the stored artifacts without a freshness check.
    pub fn get(&self, uri: &FileUri) -> (r: Option<&A>)
        requires
            self.wf(),
        ensures
            match r {
                Some(a) => {
                    &&& self.entry_of(uri@) is Some
                    &&& *a == self.entry_of(uri@)->Some_0.1
                },
                None => self.entry_of(uri@) is None,
            },
    {
        match self.entries.get(uri) {
            Some(e) => Some(&e.1),
            None => None,
        }
    }

    /// Store artifacts computed under `fp`, replacing any prior entry.
    pub fn insert(&mut self, uri: &FileUri, fp: ScopeFingerprint, artifacts: A)
        requires
            old(self).wf(),
        ensures
            final(self).wf(),
            final(self).entry_of(uri@) == Some((fp, artifacts)),
            forall|u: Seq<u8>| u != uri@ ==> final(self).entry_of(u) == old(self).entry_of(u),
    {
        self.entries.insert(uri.duplicate(), (fp, artifacts));
    }

    /// Drop the entry for `uri`.
    pub fn invalidate(&mut self, uri: &FileUri)
        requires
            old(self).wf(),
        ensures
            final(self).wf(),
            final(self).entry_of(uri@) is None,
            forall|u: Seq<u8>| u != uri@ ==> final(self).entry_of(u) == old(self).entry_of(u),
    {
        let _ = self.entries.remove(uri);
    }

    /// Drop every entry.
    pub fn invalidate_all(&mut self)
        ensures
            final(self).wf(),
            forall|u: Seq<u8>| final(self).entry_of(u) is None,
    {
        self.entries = UriMap::new();
    }
}

} // verus!

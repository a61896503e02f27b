//! The monotonic diagnostics gate: per-document admission of at most one
//! publication per version, with an explicit force-republish bypass.

use vstd::prelude::*;

use crate::uri::FileUri;
use crate::urimap::UriMap;

verus! {

/// Publication state kept for one document.
#[derive(Clone, Copy, Debug)]
pub struct GateState {
    /// The version whose diagnostics were last published, if any.
    pub last_published: Option<u64>,
    /// Whether the next publish may repeat a version once.
    pub force_republish: bool,
}

/// The state of a document never seen before.
pub open spec fn fresh_gate_state() -> GateState {
    GateState { last_published: None, force_republish: false }
}

/// Per-document version gate for diagnostic publication.
pub struct DiagnosticsGate {
    entries: UriMap<GateState>,
}

impl DiagnosticsGate {
    /// Stored keys never repeat.
    pub closed spec fn wf(self) -> bool {
        self.entries.wf()
    }

    /// The publication state held for `uri`.
    pub closed spec fn state_of(self, uri: Seq<u8>) -> GateState {
        match self.entries.spec_get(uri) {
            Some(s) => s,
            None => fresh_gate_state(),
        }
    }

    /// Publication is admitted when forced, when nothing was published yet,
    /// or when the version strictly exceeds the last published one.
    pub open spec fn spec_can_publish(self, uri: Seq<u8>, version: u64) -> bool {
        self.state_of(uri).force_republish || match self.state_of(uri).last_published {
            None => true,
            Some(last) => version > last,
        }
    }

    /// A gate that admits the first publish of every document.
    pub fn new() -> (r: DiagnosticsGate)
        ensures
            r.wf(),
            forall|u: Seq<u8>| r.state_of(u) == fresh_gate_state(),
    {
        DiagnosticsGate { entries: UriMap::new() }
    }

    /// Decide whether `version` of `uri` may be published now.
    pub fn can_publish(&self, uri: &FileUri, version: u64) -> (r: bool)
        requires
            self.wf(),
        ensures
            r == self.spec_can_publish(uri@, version),
    {
        match self.entries.get(uri) {
            Some(s) => {
                if s.force_republish {
                    true
                } else {
                    match s.last_published {
                        Some(last) => version > last,
                        None => true,
                    }
                }
            },
            None => true,
        }
    }

    /// Note that `version` of `uri` was published; the force flag is spent.
    pub fn record_publish(&mut self, uri: &FileUri, version: u64)
        requires
            old(self).wf(),
        ensures
            final(self).wf(),
            final(self).state_of(uri@) == (GateState {
                last_published: Some(version),
                force_republish: false,
            }),
            forall|u: Seq<u8>|
                u != uri@ ==> final(self).state_of(u) == old(self).state_of(u),
    {
        self.entries.insert(
            uri.duplicate(),
            GateState { last_published: Some(version), force_republish: false },
        );
    }

    /// Allow `uri` one republication of an already-published version.
    pub fn mark_force_republish(&mut self, uri: &FileUri)
        requires
            old(self).wf(),
        ensures
            final(self).wf(),
            final(self).state_of(uri@) == (GateState {
                last_published: old(self).state_of(uri@).last_published,
                force_republish: true,
            }),
            forall|u: Seq<u8>|
                u != uri@ ==> final(self).state_of(u) == old(self).state_of(u),
    {
        let last = match self.entries.get(uri) {
            Some(s) => s.last_published,
            None => None,
        };
        self.entries.insert(
            uri.duplicate(),
            GateState { last_published: last, force_republish: true },
        );
    }

    /// Forget everything about `uri`.
    pub fn clear(&mut self, uri: &FileUri)
        requires
            old(self).wf(),
        ensures
            final(self).wf(),
            final(self).state_of(uri@) == fresh_gate_state(),
            forall|u: Seq<u8>|
                u != uri@ ==> final(self).state_of(u) == old(self).state_of(u),
    {
        let _ = self.entries.remove(uri);
    }
}

/// Once a publish of version `v` is recorded for a document, no version at
/// or below `v` is admitted again until a forced republish is requested for
/// that document.
pub proof fn lemma_monotonic_gate(g: DiagnosticsGate, uri: Seq<u8>, v: u64, v2: u64)
    requires
        g.state_of(uri).last_published == Some(v),
        !g.state_of(uri).force_republish,
        v2 <= v,
    ensures
        !g.spec_can_publish(uri, v2),
{
}

/// A forced republish admits any version, even one already published.
pub proof fn lemma_force_republish_admits(g: DiagnosticsGate, uri: Seq<u8>, v2: u64)
    requires
        g.state_of(uri).force_republish,
    ensures
        g.spec_can_publish(uri, v2),
{
}

} // verus!

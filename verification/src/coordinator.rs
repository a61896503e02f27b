//! The coordinator: a thin façade wiring editor events to the parser,
//! the graph, the caches, the activity tracker, the planner and the
//! gate. The host performs the I/O and hands plain values in.

use vstd::prelude::*;

use crate::activity::ActivityTracker;
use crate::cache::MetadataCache;
use crate::directive::parse_directives;
use crate::directive::parse_directives_spec;
use crate::gate::DiagnosticsGate;
use crate::graph::DependencyGraph;
use crate::graph::dup_free;
use crate::index::WorkspaceIndex;
use crate::parent::ParentCache;
use crate::reval::is_affected;
use crate::reval::plan_revalidation;
use crate::reval::RevalidationQueue;
use crate::scope::ScopeCache;
use crate::types::CrossFileMetadata;
use crate::uri::FileUri;
use crate::uri::uris_view;

verus! {

/// Recognised configuration, each bound positive.
pub struct CrossFileConfig {
    /// Bound of the metadata cache.
    pub metadata_cache_capacity: usize,
    /// Bound of the artifacts cache.
    pub artifacts_cache_capacity: usize,
    /// Depth cap of transitive traversal.
    pub max_chain_depth: usize,
    /// Cap on the revalidation batch after one edit.
    pub max_revalidations_per_trigger: usize,
    /// Segments of the workspace root, when one is known.
    pub workspace_root: Option<Vec<Vec<u8>>>,
}

impl CrossFileConfig {
    /// All bounds positive.
    pub open spec fn wf(self) -> bool {
        self.metadata_cache_capacity >= 1 && self.artifacts_cache_capacity >= 1
            && self.max_chain_depth >= 1 && self.max_revalidations_per_trigger >= 1
    }
}

impl Default for CrossFileConfig {
    /// Defaults: a thousand metadata entries, a hundred artifact
    /// entries, a chain depth of sixteen, thirty-two revalidations.
    fn default() -> (r: CrossFileConfig)
        ensures
            r.wf(),
            r.metadata_cache_capacity == 1000,
    {
        CrossFileConfig {
            metadata_cache_capacity: 1000,
            artifacts_cache_capacity: 100,
            max_chain_depth: 16,
            max_revalidations_per_trigger: 32,
            workspace_root: None,
        }
    }
}

/// What happened to a watched file on disk.
pub enum FileChangeKind {
    /// The file appeared.
    Created,
    /// The file's content changed.
    Changed,
    /// The file is gone.
    Deleted,
}

/// The shared cross-file state, wired on editor events.
pub struct Coordinator<A> {
    /// The dependency graph.
    pub graph: DependencyGraph,
    /// The diagnostics gate.
    pub gate: DiagnosticsGate,
    /// The activity tracker.
    pub activity: ActivityTracker,
    /// The metadata cache.
    pub metadata: MetadataCache,
    /// The artifacts cache.
    pub artifacts: ScopeCache<A>,
    /// The parent cache.
    pub parents: ParentCache,
    /// The content cache and index version.
    pub index: WorkspaceIndex,
    /// The pending revalidations.
    pub revalidation: RevalidationQueue,
    /// The configuration.
    pub config: CrossFileConfig,
}

impl<A> Coordinator<A> {
    /// Every part is well formed.
    pub open spec fn wf(self) -> bool {
        &&& self.graph.wf()
        &&& self.gate.wf()
        &&& self.activity.wf()
        &&& self.metadata.wf()
        &&& self.artifacts.wf()
        &&& self.parents.wf()
        &&& self.index.wf()
        &&& self.revalidation.wf()
        &&& self.config.wf()
    }

    /// A fresh coordinator under the given configuration: every part
    /// starts empty, and the metadata cache takes the configured bound.
    pub fn new(config: CrossFileConfig) -> (r: Coordinator<A>)
        requires
            config.wf(),
        ensures
            r.wf(),
            r.config == config,
            r.metadata.capacity() == config.metadata_cache_capacity,
            r.metadata.cache_keys().len() == 0,
            forall|u: Seq<u8>| r.metadata.metadata_at(u) is None,
            forall|u: Seq<u8>| r.gate.state_of(u) == crate::gate::fresh_gate_state(),
            forall|u: Seq<u8>| r.activity.rank_of(u) == crate::activity::unseen_rank(),
            r.activity.spec_counter() == 0,
            forall|u: Seq<u8>| r.artifacts.entry_of(u) is None,
            forall|u: Seq<u8>| r.parents.entry_of(u) is None,
            forall|u: Seq<u8>| r.index.content_of(u) is None,
            r.index.spec_version() == 0,
            forall|u: Seq<u8>| r.revalidation.pending_of(u) is None,
            forall|u: Seq<u8>| !r.graph.has_decl(u),
            forall|a: Seq<u8>, b: Seq<u8>| !r.graph.has_edge(a, b),
    {
        let cap = config.metadata_cache_capacity;
        Coordinator {
            graph: DependencyGraph::new(),
            gate: DiagnosticsGate::new(),
            activity: ActivityTracker::new(),
            metadata: MetadataCache::with_capacity(cap),
            artifacts: ScopeCache::new(),
            parents: ParentCache::new(),
            index: WorkspaceIndex::new(),
            revalidation: RevalidationQueue::new(),
            config,
        }
    }

    /// An edit arrived: reparse the directives, cache them, replace the
    /// file's declared edges with the resolved targets and sources,
    /// touch its activity, drop its stale artifacts and parent entry,
    /// and plan the revalidation batch — the trigger first, open
    /// dependents by priority, capped.
    pub fn on_did_change(
        &mut self,
        uri: &FileUri,
        text: &[u8],
        targets: Vec<FileUri>,
        sources: Vec<FileUri>,
        open_docs: &Vec<FileUri>,
    ) -> (r: Vec<FileUri>)
        requires
            old(self).wf(),
        ensures
            final(self).wf(),
            final(self).metadata.metadata_at(uri@) == Some(parse_directives_spec(text@)),
            final(self).graph.decl_targets(uri@) == uris_view(targets@),
            final(self).graph.decl_sources(uri@) == uris_view(sources@),
            1 <= r@.len() <= final(self).config.max_revalidations_per_trigger,
            uris_view(r@)[0] == uri@,
            dup_free(uris_view(r@)),
            forall|x: Seq<u8>|
                #[trigger] uris_view(r@).contains(x) ==> is_affected(
                    final(self).graph,
                    uris_view(open_docs@),
                    uri@,
                    x,
                    final(self).config.max_chain_depth as nat,
                ),
            forall|x: Seq<u8>|
                is_affected(
                    final(self).graph,
                    uris_view(open_docs@),
                    uri@,
                    x,
                    final(self).config.max_chain_depth as nat,
                ) && !(#[trigger] uris_view(r@).contains(x))
                    ==> r@.len() == final(self).config.max_revalidations_per_trigger,
            forall|i: int, j: int|
                1 <= i < j < r@.len() ==> crate::reval::prio_le(
                    final(self).activity,
                    uris_view(r@)[i],
                    uris_view(r@)[j],
                ),
            forall|x: Seq<u8>, i: int|
                #![trigger uris_view(r@).contains(x), uris_view(r@)[i]]
                is_affected(
                    final(self).graph,
                    uris_view(open_docs@),
                    uri@,
                    x,
                    final(self).config.max_chain_depth as nat,
                ) && !uris_view(r@).contains(x) && 1 <= i < r@.len() ==> crate::reval::prio_le(
                    final(self).activity,
                    uris_view(r@)[i],
                    x,
                ),
            forall|u: Seq<u8>|
                (#[trigger] final(self).gate.state_of(u)) == if is_affected(
                    final(self).graph,
                    uris_view(open_docs@),
                    uri@,
                    u,
                    final(self).config.max_chain_depth as nat,
                ) && u != uri@ {
                    crate::gate::GateState {
                        last_published: old(self).gate.state_of(u).last_published,
                        force_republish: true,
                    }
                } else {
                    old(self).gate.state_of(u)
                },
            final(self).activity.spec_counter() == if old(self).activity.spec_counter()
                < u64::MAX {
                old(self).activity.spec_counter() + 1
            } else {
                u64::MAX as int
            },
            final(self).activity.rank_of(uri@) == (crate::activity::ActivityRank {
                stamp: final(self).activity.spec_counter(),
                active: old(self).activity.rank_of(uri@).active,
                visible: old(self).activity.rank_of(uri@).visible,
            }),
            forall|u: Seq<u8>|
                u != uri@ ==> #[trigger] final(self).activity.rank_of(u) == old(
                    self,
                ).activity.rank_of(u),
            final(self).index == old(self).index,
            final(self).config == old(self).config,
            final(self).artifacts.entry_of(uri@) is None,
            final(self).parents.entry_of(uri@) is None,
            final(self).revalidation.pending_of(uri@) is Some,
            forall|u: Seq<u8>|
                u != uri@ ==> #[trigger] final(self).artifacts.entry_of(u) == old(
                    self,
                ).artifacts.entry_of(u),
            forall|u: Seq<u8>|
                u != uri@ ==> #[trigger] final(self).parents.entry_of(u) == old(
                    self,
                ).parents.entry_of(u),
            forall|u: Seq<u8>|
                u != uri@ ==> #[trigger] final(self).revalidation.pending_of(u) == old(
                    self,
                ).revalidation.pending_of(u),
            forall|u: Seq<u8>|
                u != uri@ ==> #[trigger] final(self).metadata.metadata_at(u) == (
                if final(self).metadata.cache_keys().contains(u) {
                    old(self).metadata.metadata_at(u)
                } else {
                    None
                }),
            forall|u: Seq<u8>|
                u != uri@ ==> #[trigger] final(self).graph.decl_targets(u) == old(
                    self,
                ).graph.decl_targets(u) && final(self).graph.decl_sources(u) == old(
                    self,
                ).graph.decl_sources(u) && final(self).graph.has_decl(u) == old(
                    self,
                ).graph.has_decl(u),
    {
        let meta = parse_directives(text);
        self.metadata.insert(uri.duplicate(), meta);
        self.revalidation.schedule(uri);
        self.graph.set_edges(uri, targets, sources);
        self.activity.record_recent(uri);
        self.artifacts.invalidate(uri);
        self.parents.invalidate(uri);
        plan_revalidation(
            &self.graph,
            &self.activity,
            &mut self.gate,
            open_docs,
            uri,
            self.config.max_chain_depth,
            self.config.max_revalidations_per_trigger,
        )
    }

    /// A document closed: its gate state, activity and cached parent
    /// entry are dropped.
    pub fn on_did_close(&mut self, uri: &FileUri)
        requires
            old(self).wf(),
        ensures
            final(self).wf(),
            final(self).gate.state_of(uri@) == crate::gate::fresh_gate_state(),
            final(self).activity.rank_of(uri@) == crate::activity::unseen_rank(),
            final(self).parents.entry_of(uri@) is None,
            final(self).revalidation.pending_of(uri@) is None,
            final(self).graph == old(self).graph,
            final(self).metadata == old(self).metadata,
            final(self).artifacts == old(self).artifacts,
            final(self).index == old(self).index,
            final(self).config == old(self).config,
            final(self).activity.spec_counter() == old(self).activity.spec_counter(),
            forall|u: Seq<u8>|
                u != uri@ ==> #[trigger] final(self).gate.state_of(u) == old(
                    self,
                ).gate.state_of(u),
            forall|u: Seq<u8>|
                u != uri@ ==> #[trigger] final(self).activity.rank_of(u) == old(
                    self,
                ).activity.rank_of(u),
            forall|u: Seq<u8>|
                u != uri@ ==> #[trigger] final(self).parents.entry_of(u) == old(
                    self,
                ).parents.entry_of(u),
            forall|u: Seq<u8>|
                u != uri@ ==> #[trigger] final(self).revalidation.pending_of(u) == old(
                    self,
                ).revalidation.pending_of(u),
    {
        self.gate.clear(uri);
        self.revalidation.cancel(uri);
        self.activity.remove(uri);
        self.parents.invalidate(uri);
    }

    /// A watched file changed on disk. An open copy is authoritative,
    /// so nothing happens; otherwise the disk-backed caches are
    /// invalidated, and a deleted file leaves the graph and every cache.
    pub fn on_watched_file(&mut self, uri: &FileUri, kind: FileChangeKind, is_open: bool)
        requires
            old(self).wf(),
        ensures
            final(self).wf(),
            is_open ==> *final(self) == *old(self),
            final(self).gate == old(self).gate,
            final(self).activity == old(self).activity,
            final(self).revalidation == old(self).revalidation,
            final(self).config == old(self).config,
            forall|u: Seq<u8>|
                u != uri@ ==> #[trigger] final(self).index.content_of(u) == old(
                    self,
                ).index.content_of(u),
            forall|u: Seq<u8>|
                u != uri@ ==> #[trigger] final(self).artifacts.entry_of(u) == old(
                    self,
                ).artifacts.entry_of(u),
            final(self).index.spec_version() >= old(self).index.spec_version(),
            !is_open && !(kind is Deleted) ==> {
                &&& final(self).index.content_of(uri@) is None
                &&& final(self).artifacts.entry_of(uri@) is None
                &&& final(self).graph == old(self).graph
                &&& final(self).metadata == old(self).metadata
                &&& final(self).parents == old(self).parents
            },
            !is_open && kind is Deleted ==> {
                &&& final(self).index.content_of(uri@) is None
                &&& final(self).artifacts.entry_of(uri@) is None
                &&& final(self).metadata.metadata_at(uri@) is None
                &&& final(self).parents.entry_of(uri@) is None
                &&& (forall|u: Seq<u8>|
                    u != uri@ ==> #[trigger] final(self).metadata.metadata_at(u) == old(
                        self,
                    ).metadata.metadata_at(u))
                &&& (forall|u: Seq<u8>|
                    u != uri@ ==> #[trigger] final(self).parents.entry_of(u) == old(
                        self,
                    ).parents.entry_of(u))
                &&& !final(self).graph.has_decl(uri@)
                &&& forall|a: Seq<u8>, b: Seq<u8>|
                    #[trigger] final(self).graph.has_edge(a, b) == (old(self).graph.has_edge(
                        a,
                        b,
                    ) && a != uri@ && b != uri@)
            },
    {
        if is_open {
            return;
        }
        match kind {
            FileChangeKind::Created | FileChangeKind::Changed => {
                self.index.invalidate(uri);
                self.artifacts.invalidate(uri);
            },
            FileChangeKind::Deleted => {
                self.graph.remove_file(uri);
                self.index.invalidate(uri);
                self.artifacts.invalidate(uri);
                self.metadata.remove(uri);
                self.parents.invalidate(uri);
            },
        }
    }

    /// Admit one publication: true exactly when this version may be
    /// published now, in which case it is recorded and the force flag
    /// is spent.
    pub fn admit_publish(&mut self, uri: &FileUri, version: u64) -> (r: bool)
        requires
            old(self).wf(),
        ensures
            final(self).wf(),
            r == old(self).gate.spec_can_publish(uri@, version),
            r ==> final(self).gate.state_of(uri@) == (crate::gate::GateState {
                last_published: Some(version),
                force_republish: false,
            }),
            !r ==> final(self).gate == old(self).gate,
            forall|u: Seq<u8>|
                u != uri@ ==> #[trigger] final(self).gate.state_of(u) == old(
                    self,
                ).gate.state_of(u),
            final(self).graph == old(self).graph,
            final(self).activity == old(self).activity,
            final(self).metadata == old(self).metadata,
            final(self).artifacts == old(self).artifacts,
            final(self).parents == old(self).parents,
            final(self).index == old(self).index,
            final(self).revalidation == old(self).revalidation,
            final(self).config == old(self).config,
    {
        if self.gate.can_publish(uri, version) {
            self.gate.record_publish(uri, version);
            true
        } else {
            false
        }
    }
}

} // verus!

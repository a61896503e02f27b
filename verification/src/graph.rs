//! The cross-file dependency graph: per-file edge declarations, a forward
//! index, and a reverse index that provably never disagree.
//!
//! An edge `a -> b` ("a sources b") exists when `a` declares `b` among its
//! forward targets, or when `b` declares `a` among its backward sources.
//! Both indices are rebuilt from the declarations on every mutation, and
//! well-formedness ties each of them to the same edge relation, so no
//! observable state violates edge symmetry.

use vstd::prelude::*;

use crate::uri::FileUri;
use crate::uri::uris_view;
use crate::uri::uris_contain;
use crate::uri::duplicate_uris;
use crate::urimap::UriMap;

verus! {

/// The edges one file declares: files it sources, and files it says
/// source it.
pub struct DeclEdges {
    /// Files this file sources (forward directives, resolved).
    pub targets: Vec<FileUri>,
    /// Files this file is sourced by (backward directives, resolved).
    pub sources: Vec<FileUri>,
}

/// No value repeats.
pub open spec fn dup_free(s: Seq<Seq<u8>>) -> bool {
    forall|i: int, j: int| 0 <= i < j < s.len() ==> s[i] != s[j]
}

/// Breadth-first order: a later entry never reaches the start in fewer
/// steps than an earlier one.
pub open spec fn bfs_ordered(g: DependencyGraph, start: Seq<u8>, v: Seq<Seq<u8>>) -> bool {
    forall|i: int, j: int, d: nat|
        #![trigger v[i], g.reach(start, v[j], d)]
        0 <= i < j < v.len() && g.reach(start, v[j], d) ==> g.reach(start, v[i], d)
}

/// A file is a node of a declaration map when it declares edges or is
/// named by a declaration.
spec fn is_node_of(decls: UriMap<DeclEdges>, x: Seq<u8>) -> bool {
    exists|i: int|
        #![trigger decls.keys()[i]]
        0 <= i < decls.keys().len() && (decls.keys()[i] == x
            || uris_view(decls.values()[i].targets@).contains(x)
            || uris_view(decls.values()[i].sources@).contains(x))
}

/// Bidirectional dependency graph with cycle-tolerant traversal.
pub struct DependencyGraph {
    decls: UriMap<DeclEdges>,
    fwd: UriMap<Vec<FileUri>>,
    rev: UriMap<Vec<FileUri>>,
}

impl DependencyGraph {
    /// The forward targets `u` declares.
    pub closed spec fn decl_targets(self, u: Seq<u8>) -> Seq<Seq<u8>> {
        match self.decls.spec_get(u) {
            Some(d) => uris_view(d.targets@),
            None => Seq::empty(),
        }
    }

    /// The backward sources `u` declares.
    pub closed spec fn decl_sources(self, u: Seq<u8>) -> Seq<Seq<u8>> {
        match self.decls.spec_get(u) {
            Some(d) => uris_view(d.sources@),
            None => Seq::empty(),
        }
    }

    /// Whether declarations are held for `u`.
    pub closed spec fn has_decl(self, u: Seq<u8>) -> bool {
        self.decls.spec_get(u) is Some
    }

    /// The edge relation: `a` sources `b`.
    pub open spec fn has_edge(self, a: Seq<u8>, b: Seq<u8>) -> bool {
        self.decl_targets(a).contains(b) || self.decl_sources(b).contains(a)
    }

    /// The forward index entry of `a`: every `b` it sources.
    pub closed spec fn fwd_adj(self, a: Seq<u8>) -> Seq<Seq<u8>> {
        match self.fwd.spec_get(a) {
            Some(v) => uris_view(v@),
            None => Seq::empty(),
        }
    }

    /// The reverse index entry of `b`: every `a` that sources it.
    pub closed spec fn rev_adj(self, b: Seq<u8>) -> Seq<Seq<u8>> {
        match self.rev.spec_get(b) {
            Some(v) => uris_view(v@),
            None => Seq::empty(),
        }
    }

    /// Both indices list exactly the declared edge relation, without
    /// repeats. This holds at every observable state.
    pub open spec fn wf(self) -> bool {
        &&& self.decls_wf()
        &&& (forall|a: Seq<u8>, b: Seq<u8>|
            #[trigger] self.fwd_adj(a).contains(b) <==> self.has_edge(a, b))
        &&& (forall|a: Seq<u8>, b: Seq<u8>|
            #[trigger] self.rev_adj(b).contains(a) <==> self.has_edge(a, b))
        &&& (forall|a: Seq<u8>| #[trigger] dup_free(self.fwd_adj(a)))
        &&& (forall|a: Seq<u8>| #[trigger] dup_free(self.rev_adj(a)))
    }

    /// The internal maps keep their key discipline.
    pub closed spec fn decls_wf(self) -> bool {
        self.decls.wf() && self.fwd.wf() && self.rev.wf()
    }

    /// An empty graph.
    pub fn new() -> (r: DependencyGraph)
        ensures
            r.wf(),
            forall|a: Seq<u8>, b: Seq<u8>| !r.has_edge(a, b),
            forall|u: Seq<u8>| !r.has_decl(u),
    {
        DependencyGraph { decls: UriMap::new(), fwd: UriMap::new(), rev: UriMap::new() }
    }

    /// A file is a node when it declares edges or is named by one.
    spec fn is_node(self, x: Seq<u8>) -> bool {
        is_node_of(self.decls, x)
    }

    proof fn lemma_edge_endpoints_are_nodes(self, a: Seq<u8>, b: Seq<u8>)
        requires
            self.decls_wf(),
            self.has_edge(a, b),
        ensures
            self.is_node(a) && self.is_node(b),
    {
        self.decls.lemma_keys();
        if self.decl_targets(a).contains(b) {
            assert(self.decls.spec_get(a) is Some);
            assert(self.decls.keys().contains(a));
            let i = choose|i: int|
                0 <= i < self.decls.keys().len() && self.decls.keys()[i] == a;
            self.decls.lemma_at(i);
            assert(self.decls.values()[i] == self.decls.spec_get(a)->Some_0);
            assert(self.is_node(a));
            assert(self.is_node(b));
        } else {
            assert(self.decl_sources(b).contains(a));
            assert(self.decls.spec_get(b) is Some);
            assert(self.decls.keys().contains(b));
            let i = choose|i: int|
                0 <= i < self.decls.keys().len() && self.decls.keys()[i] == b;
            self.decls.lemma_at(i);
            assert(self.decls.values()[i] == self.decls.spec_get(b)->Some_0);
            assert(self.is_node(b));
            assert(self.is_node(a));
        }
    }

    /// Every node of the graph; repeats are harmless to the rebuild.
    fn collect_nodes(&self) -> (r: Vec<FileUri>)
        requires
            self.decls_wf(),
        ensures
            forall|x: Seq<u8>| (#[trigger] uris_view(r@).contains(x)) == self.is_node(x),
    {
        let mut out: Vec<FileUri> = Vec::new();
        let n = self.decls.len();
        let mut i: usize = 0;
        while i < n
            invariant
                self.decls_wf(),
                i <= n,
                n == self.decls.keys().len(),
                forall|x: Seq<u8>|
                    #[trigger] uris_view(out@).contains(x) ==> self.is_node(x),
                forall|j: int|
                    0 <= j < i ==> uris_view(out@).contains(#[trigger] self.decls.keys()[j]),
                forall|j: int, k: int|
                    0 <= j < i && 0 <= k < uris_view(self.decls.values()[j].targets@).len()
                    ==> uris_view(out@).contains(
                        #[trigger] uris_view(self.decls.values()[j].targets@)[k]),
                forall|j: int, k: int|
                    0 <= j < i && 0 <= k < uris_view(self.decls.values()[j].sources@).len()
                    ==> uris_view(out@).contains(
                        #[trigger] uris_view(self.decls.values()[j].sources@)[k]),
            decreases n - i,
        {
            let ghost gi = i as int;
            let key = self.decls.key_at(i);
            push_uri(&mut out, key);
            proof {
                assert(self.decls.keys()[gi] == key@);
                assert(self.is_node(key@));
            }
            let val = self.decls.val_at(i);
            let mut t: usize = 0;
            while t < val.targets.len()
                invariant
                    self.decls_wf(),
                    i < n,
                    gi == i as int,
                    n == self.decls.keys().len(),
                    t <= val.targets@.len(),
                    *val == self.decls.values()[gi],
                    forall|x: Seq<u8>|
                        #[trigger] uris_view(out@).contains(x) ==> self.is_node(x),
                    forall|j: int|
                        0 <= j <= i ==> uris_view(out@).contains(#[trigger] self.decls.keys()[j]),
                    forall|j: int, k: int|
                        0 <= j < i && 0 <= k < uris_view(self.decls.values()[j].targets@).len()
                        ==> uris_view(out@).contains(
                            #[trigger] uris_view(self.decls.values()[j].targets@)[k]),
                    forall|j: int, k: int|
                        0 <= j < i && 0 <= k < uris_view(self.decls.values()[j].sources@).len()
                        ==> uris_view(out@).contains(
                            #[trigger] uris_view(self.decls.values()[j].sources@)[k]),
                    forall|k: int|
                        0 <= k < t ==> uris_view(out@).contains(
                            #[trigger] uris_view(self.decls.values()[gi].targets@)[k]),
                decreases val.targets@.len() - t,
            {
                push_uri(&mut out, &val.targets[t]);
                proof {
                    assert(uris_view(out@).contains(self.decls.keys()[gi]));
                    assert(uris_view(self.decls.values()[gi].targets@)[t as int]
                        == val.targets@[t as int]@);
                    assert(uris_view(self.decls.values()[gi].targets@).contains(
                        val.targets@[t as int]@));
                    assert(self.is_node(val.targets@[t as int]@));
                }
                t += 1;
            }
            let mut u: usize = 0;
            while u < val.sources.len()
                invariant
                    self.decls_wf(),
                    i < n,
                    gi == i as int,
                    n == self.decls.keys().len(),
                    u <= val.sources@.len(),
                    *val == self.decls.values()[gi],
                    forall|x: Seq<u8>|
                        #[trigger] uris_view(out@).contains(x) ==> self.is_node(x),
                    forall|j: int|
                        0 <= j <= i ==> uris_view(out@).contains(#[trigger] self.decls.keys()[j]),
                    forall|j: int, k: int|
                        0 <= j < i && 0 <= k < uris_view(self.decls.values()[j].targets@).len()
                        ==> uris_view(out@).contains(
                            #[trigger] uris_view(self.decls.values()[j].targets@)[k]),
                    forall|j: int, k: int|
                        0 <= j < i && 0 <= k < uris_view(self.decls.values()[j].sources@).len()
                        ==> uris_view(out@).contains(
                            #[trigger] uris_view(self.decls.values()[j].sources@)[k]),
                    forall|k: int|
                        0 <= k < uris_view(self.decls.values()[gi].targets@).len()
                            ==> uris_view(out@).contains(
                            #[trigger] uris_view(self.decls.values()[gi].targets@)[k]),
                    forall|k: int|
                        0 <= k < u ==> uris_view(out@).contains(
                            #[trigger] uris_view(self.decls.values()[gi].sources@)[k]),
                decreases val.sources@.len() - u,
            {
                push_uri(&mut out, &val.sources[u]);
                proof {
                    assert(uris_view(out@).contains(self.decls.keys()[gi]));
                    assert(uris_view(self.decls.values()[gi].sources@)[u as int]
                        == val.sources@[u as int]@);
                    assert(uris_view(self.decls.values()[gi].sources@).contains(
                        val.sources@[u as int]@));
                    assert(self.is_node(val.sources@[u as int]@));
                }
                u += 1;
            }
            i += 1;
        }
        proof {
            assert forall|x: Seq<u8>| (#[trigger] uris_view(out@).contains(x)) == self.is_node(x)
            by {
                if self.is_node(x) {
                    let j = choose|j: int|
                        #![trigger self.decls.keys()[j]]
                        0 <= j < self.decls.keys().len() && (self.decls.keys()[j] == x
                            || uris_view(self.decls.values()[j].targets@).contains(x)
                            || uris_view(self.decls.values()[j].sources@).contains(x));
                    if self.decls.keys()[j] == x {
                        assert(uris_view(out@).contains(self.decls.keys()[j]));
                    } else if uris_view(self.decls.values()[j].targets@).contains(x) {
                        let k = choose|k: int|
                            0 <= k < uris_view(self.decls.values()[j].targets@).len()
                                && uris_view(self.decls.values()[j].targets@)[k] == x;
                        assert(uris_view(out@).contains(
                            uris_view(self.decls.values()[j].targets@)[k]));
                    } else {
                        let k = choose|k: int|
                            0 <= k < uris_view(self.decls.values()[j].sources@).len()
                                && uris_view(self.decls.values()[j].sources@)[k] == x;
                        assert(uris_view(out@).contains(
                            uris_view(self.decls.values()[j].sources@)[k]));
                    }
                }
            }
        }
        out
    }

    /// Every `b` that `from` sources, namely each `b` with an edge
    /// `from -> b`, computed from the declarations.
    fn scan_dependencies(&self, from: &FileUri) -> (r: Vec<FileUri>)
        requires
            self.decls_wf(),
        ensures
            forall|x: Seq<u8>| (#[trigger] uris_view(r@).contains(x)) == self.has_edge(from@, x),
            dup_free(uris_view(r@)),
    {
        let mut out: Vec<FileUri> = Vec::new();
        match self.decls.get(from) {
            Some(d) => {
                let mut t: usize = 0;
                while t < d.targets.len()
                    invariant
                        self.decls_wf(),
                        t <= d.targets@.len(),
                        self.decls.spec_get(from@) == Some(*d),
                        dup_free(uris_view(out@)),
                        forall|x: Seq<u8>|
                            #[trigger] uris_view(out@).contains(x) ==> self.has_edge(from@, x),
                        forall|k: int|
                            0 <= k < t ==> uris_view(out@).contains(
                                #[trigger] uris_view(d.targets@)[k]),
                    decreases d.targets@.len() - t,
                {
                    proof {
                        assert(uris_view(d.targets@)[t as int] == d.targets@[t as int]@);
                        assert(self.decl_targets(from@).contains(uris_view(d.targets@)[t as int]));
                    }
                    if !uris_contain(&out, &d.targets[t]) {
                        push_uri(&mut out, &d.targets[t]);
                    }
                    t += 1;
                }
            },
            None => {},
        }
        // Files that declare `from` among their backward sources.
        let n = self.decls.len();
        let mut i: usize = 0;
        while i < n
            invariant
                self.decls_wf(),
                i <= n,
                n == self.decls.keys().len(),
                dup_free(uris_view(out@)),
                forall|x: Seq<u8>|
                    #[trigger] uris_view(out@).contains(x) ==> self.has_edge(from@, x),
                forall|k: int|
                    0 <= k < self.decl_targets(from@).len()
                        ==> uris_view(out@).contains(#[trigger] self.decl_targets(from@)[k]),
                forall|j: int|
                    0 <= j < i && (#[trigger] uris_view(self.decls.values()[j].sources@)).contains(
                        from@,
                    ) ==> uris_view(out@).contains(self.decls.keys()[j]),
            decreases n - i,
        {
            let key = self.decls.key_at(i);
            let val = self.decls.val_at(i);
            proof {
                self.decls.lemma_at(i as int);
            }
            if uris_contain(&val.sources, from) {
                proof {
                    assert(self.decl_sources(key@).contains(from@));
                }
                if !uris_contain(&out, key) {
                    push_uri(&mut out, key);
                }
            }
            i += 1;
        }
        proof {
            assert forall|x: Seq<u8>| (#[trigger] uris_view(out@).contains(x))
                == self.has_edge(from@, x) by {
                if self.has_edge(from@, x) && !self.decl_targets(from@).contains(x) {
                    assert(self.decl_sources(x).contains(from@));
                    assert(self.decls.spec_get(x) is Some);
                    self.decls.lemma_keys();
                    assert(self.decls.keys().contains(x));
                    let j = choose|j: int|
                        0 <= j < self.decls.keys().len() && self.decls.keys()[j] == x;
                    self.decls.lemma_at(j);
                    assert(uris_view(self.decls.values()[j].sources@).contains(from@));
                }
                if self.decl_targets(from@).contains(x) {
                    let k = choose|k: int|
                        0 <= k < self.decl_targets(from@).len()
                            && self.decl_targets(from@)[k] == x;
                    assert(uris_view(out@).contains(self.decl_targets(from@)[k]));
                }
            }
        }
        out
    }

    /// Every `a` that sources `to`, namely each `a` with an edge
    /// `a -> to`, computed from the declarations.
    fn scan_dependents(&self, to: &FileUri) -> (r: Vec<FileUri>)
        requires
            self.decls_wf(),
        ensures
            forall|x: Seq<u8>| (#[trigger] uris_view(r@).contains(x)) == self.has_edge(x, to@),
            dup_free(uris_view(r@)),
    {
        let mut out: Vec<FileUri> = Vec::new();
        match self.decls.get(to) {
            Some(d) => {
                let mut t: usize = 0;
                while t < d.sources.len()
                    invariant
                        self.decls_wf(),
                        t <= d.sources@.len(),
                        self.decls.spec_get(to@) == Some(*d),
                        dup_free(uris_view(out@)),
                        forall|x: Seq<u8>|
                            #[trigger] uris_view(out@).contains(x) ==> self.has_edge(x, to@),
                        forall|k: int|
                            0 <= k < t ==> uris_view(out@).contains(
                                #[trigger] uris_view(d.sources@)[k]),
                    decreases d.sources@.len() - t,
                {
                    proof {
                        assert(uris_view(d.sources@)[t as int] == d.sources@[t as int]@);
                        assert(self.decl_sources(to@).contains(uris_view(d.sources@)[t as int]));
                    }
                    if !uris_contain(&out, &d.sources[t]) {
                        push_uri(&mut out, &d.sources[t]);
                    }
                    t += 1;
                }
            },
            None => {},
        }
        // Files whose forward targets name `to`.
        let n = self.decls.len();
        let mut i: usize = 0;
        while i < n
            invariant
                self.decls_wf(),
                i <= n,
                n == self.decls.keys().len(),
                dup_free(uris_view(out@)),
                forall|x: Seq<u8>|
                    #[trigger] uris_view(out@).contains(x) ==> self.has_edge(x, to@),
                forall|k: int|
                    0 <= k < self.decl_sources(to@).len()
                        ==> uris_view(out@).contains(#[trigger] self.decl_sources(to@)[k]),
                forall|j: int|
                    0 <= j < i && (#[trigger] uris_view(self.decls.values()[j].targets@)).contains(
                        to@,
                    ) ==> uris_view(out@).contains(self.decls.keys()[j]),
            decreases n - i,
        {
            let key = self.decls.key_at(i);
            let val = self.decls.val_at(i);
            proof {
                self.decls.lemma_at(i as int);
            }
            if uris_contain(&val.targets, to) {
                proof {
                    assert(self.decl_targets(key@).contains(to@));
                }
                if !uris_contain(&out, key) {
                    push_uri(&mut out, key);
                }
            }
            i += 1;
        }
        proof {
            assert forall|x: Seq<u8>| (#[trigger] uris_view(out@).contains(x))
                == self.has_edge(x, to@) by {
                if self.has_edge(x, to@) && !self.decl_sources(to@).contains(x) {
                    assert(self.decl_targets(x).contains(to@));
                    assert(self.decls.spec_get(x) is Some);
                    self.decls.lemma_keys();
                    assert(self.decls.keys().contains(x));
                    let j = choose|j: int|
                        0 <= j < self.decls.keys().len() && self.decls.keys()[j] == x;
                    self.decls.lemma_at(j);
                    assert(uris_view(self.decls.values()[j].targets@).contains(to@));
                }
                if self.decl_sources(to@).contains(x) {
                    let k = choose|k: int|
                        0 <= k < self.decl_sources(to@).len()
                            && self.decl_sources(to@)[k] == x;
                    assert(uris_view(out@).contains(self.decl_sources(to@)[k]));
                }
            }
        }
        out
    }

    /// Rebuild both indices from the declarations.
    fn rebuild(&mut self)
        requires
            old(self).decls_wf(),
        ensures
            final(self).wf(),
            final(self).decls == old(self).decls,
            forall|u: Seq<u8>| #[trigger] final(self).decl_targets(u) == old(self).decl_targets(u),
            forall|u: Seq<u8>| #[trigger] final(self).decl_sources(u) == old(self).decl_sources(u),
            forall|u: Seq<u8>| #[trigger] final(self).has_decl(u) == old(self).has_decl(u),
            forall|a: Seq<u8>, b: Seq<u8>|
                #[trigger] final(self).has_edge(a, b) == old(self).has_edge(a, b),
    {
        let nodes = self.collect_nodes();
        let mut fwd: UriMap<Vec<FileUri>> = UriMap::new();
        let mut rev: UriMap<Vec<FileUri>> = UriMap::new();
        let mut i: usize = 0;
        while i < nodes.len()
            invariant
                self.decls_wf(),
                i <= nodes@.len(),
                forall|x: Seq<u8>|
                    (#[trigger] uris_view(nodes@).contains(x)) == is_node_of(self.decls, x),
                fwd.wf(),
                rev.wf(),
                forall|a: Seq<u8>|
                    (#[trigger] fwd.spec_get(a) is Some)
                        == uris_view(nodes@.subrange(0, i as int)).contains(a),
                forall|a: Seq<u8>|
                    (#[trigger] rev.spec_get(a) is Some)
                        == uris_view(nodes@.subrange(0, i as int)).contains(a),
                forall|a: Seq<u8>, x: Seq<u8>|
                    #![trigger uris_view(fwd.spec_get(a)->Some_0@).contains(x)]
                    fwd.spec_get(a) is Some ==> (uris_view(
                        fwd.spec_get(a)->Some_0@,
                    ).contains(x) == self.has_edge(a, x)),
                forall|a: Seq<u8>, x: Seq<u8>|
                    #![trigger uris_view(rev.spec_get(a)->Some_0@).contains(x)]
                    rev.spec_get(a) is Some ==> (uris_view(
                        rev.spec_get(a)->Some_0@,
                    ).contains(x) == self.has_edge(x, a)),
                forall|a: Seq<u8>|
                    fwd.spec_get(a) is Some ==> dup_free(uris_view(
                        (#[trigger] fwd.spec_get(a))->Some_0@,
                    )),
                forall|a: Seq<u8>|
                    rev.spec_get(a) is Some ==> dup_free(uris_view(
                        (#[trigger] rev.spec_get(a))->Some_0@,
                    )),
            decreases nodes@.len() - i,
        {
            let node = &nodes[i];
            let deps = self.scan_dependencies(node);
            let dents = self.scan_dependents(node);
            fwd.insert(node.duplicate(), deps);
            rev.insert(node.duplicate(), dents);
            proof {
                assert(uris_view(nodes@)[i as int] == nodes@[i as int]@);
                assert forall|a: Seq<u8>|
                    (fwd.spec_get(a) is Some)
                        == uris_view(nodes@.subrange(0, i + 1)).contains(a) by {
                    lemma_uris_subrange_push(nodes@, i as int, a);
                }
                assert forall|a: Seq<u8>|
                    (rev.spec_get(a) is Some)
                        == uris_view(nodes@.subrange(0, i + 1)).contains(a) by {
                    lemma_uris_subrange_push(nodes@, i as int, a);
                }
            }
            i += 1;
        }
        self.fwd = fwd;
        self.rev = rev;
        proof {
            assert(nodes@.subrange(0, nodes@.len() as int) =~= nodes@);
            assert forall|a: Seq<u8>, b: Seq<u8>|
                #[trigger] self.fwd_adj(a).contains(b) <==> self.has_edge(a, b) by {
                if self.fwd.spec_get(a) is Some {
                    assert(uris_view(self.fwd.spec_get(a)->Some_0@).contains(b)
                        == self.has_edge(a, b));
                    assert(self.fwd_adj(a) == uris_view(self.fwd.spec_get(a)->Some_0@));
                } else {
                    assert(self.fwd_adj(a) =~= Seq::<Seq<u8>>::empty());
                    assert(!self.fwd_adj(a).contains(b));
                    if self.has_edge(a, b) {
                        self.lemma_edge_endpoints_are_nodes(a, b);
                        assert((uris_view(nodes@).contains(a)) == is_node_of(self.decls, a));
                        assert(false);
                    }
                }
            }
            assert forall|a: Seq<u8>, b: Seq<u8>|
                #[trigger] self.rev_adj(b).contains(a) <==> self.has_edge(a, b) by {
                if self.rev.spec_get(b) is Some {
                    assert(uris_view(self.rev.spec_get(b)->Some_0@).contains(a)
                        == self.has_edge(a, b));
                    assert(self.rev_adj(b) == uris_view(self.rev.spec_get(b)->Some_0@));
                } else {
                    assert(self.rev_adj(b) =~= Seq::<Seq<u8>>::empty());
                    assert(!self.rev_adj(b).contains(a));
                    if self.has_edge(a, b) {
                        self.lemma_edge_endpoints_are_nodes(a, b);
                        assert((uris_view(nodes@).contains(b)) == is_node_of(self.decls, b));
                        assert(false);
                    }
                }
            }
            assert forall|a: Seq<u8>| #[trigger] dup_free(self.fwd_adj(a)) by {
                if self.fwd.spec_get(a) is None {
                    assert(self.fwd_adj(a) =~= Seq::<Seq<u8>>::empty());
                }
            }
            assert forall|a: Seq<u8>| #[trigger] dup_free(self.rev_adj(a)) by {
                if self.rev.spec_get(a) is None {
                    assert(self.rev_adj(a) =~= Seq::<Seq<u8>>::empty());
                }
            }
        }
    }

    /// Replace every edge declared by `uri` with the given targets and
    /// sources; edges other files declare are untouched.
    pub fn set_edges(&mut self, uri: &FileUri, targets: Vec<FileUri>, sources: Vec<FileUri>)
        requires
            old(self).wf(),
        ensures
            final(self).wf(),
            final(self).has_decl(uri@),
            final(self).decl_targets(uri@) == uris_view(targets@),
            final(self).decl_sources(uri@) == uris_view(sources@),
            forall|u: Seq<u8>|
                u != uri@ ==> #[trigger] final(self).decl_targets(u) == old(self).decl_targets(u)
                    && final(self).decl_sources(u) == old(self).decl_sources(u)
                    && final(self).has_decl(u) == old(self).has_decl(u),
    {
        self.decls.insert(uri.duplicate(), DeclEdges { targets, sources });
        self.rebuild();
    }

    /// Remove every edge touching `uri` from both indices, and drop its
    /// declarations.
    pub fn remove_file(&mut self, uri: &FileUri)
        requires
            old(self).wf(),
        ensures
            final(self).wf(),
            !final(self).has_decl(uri@),
            forall|a: Seq<u8>, b: Seq<u8>|
                #[trigger] final(self).has_edge(a, b)
                    == (old(self).has_edge(a, b) && a != uri@ && b != uri@),
    {
        let n = self.decls.len();
        let mut filtered: UriMap<DeclEdges> = UriMap::new();
        let mut i: usize = 0;
        while i < n
            invariant
                self.decls.wf(),
                i <= n,
                n == self.decls.keys().len(),
                filtered.wf(),
                forall|u: Seq<u8>|
                    (#[trigger] filtered.spec_get(u) is Some)
                        == (self.decls.keys().subrange(0, i as int).contains(u) && u != uri@),
                forall|u: Seq<u8>|
                    filtered.spec_get(u) is Some ==> {
                        &&& uris_view((#[trigger] filtered.spec_get(u))->Some_0.targets@)
                            =~= remove_all(
                            uris_view(self.decls.spec_get(u)->Some_0.targets@),
                            uri@,
                        )
                        &&& uris_view(filtered.spec_get(u)->Some_0.sources@) =~= remove_all(
                            uris_view(self.decls.spec_get(u)->Some_0.sources@),
                            uri@,
                        )
                        &&& self.decls.spec_get(u) is Some
                    },
            decreases n - i,
        {
            let key = self.decls.key_at(i);
            let val = self.decls.val_at(i);
            proof {
                self.decls.lemma_at(i as int);
            }
            if !key.same_as(uri) {
                let new_targets = filter_out(&val.targets, uri);
                let new_sources = filter_out(&val.sources, uri);
                filtered.insert(key.duplicate(), DeclEdges {
                    targets: new_targets,
                    sources: new_sources,
                });
            }
            proof {
                assert forall|u: Seq<u8>|
                    (filtered.spec_get(u) is Some)
                        == (self.decls.keys().subrange(0, i + 1).contains(u) && u != uri@) by {
                    lemma_keys_subrange_push(self.decls.keys(), i as int, u);
                }
            }
            i += 1;
        }
        self.decls = filtered;
        proof {
            let g0 = *old(self);
            assert(g0.decls.keys().subrange(0, g0.decls.keys().len() as int) =~= g0.decls.keys());
            g0.decls.lemma_keys();
            assert forall|u: Seq<u8>|
                (#[trigger] self.decls.spec_get(u) is Some)
                    == (g0.decls.spec_get(u) is Some && u != uri@) by {
                assert((g0.decls.keys().contains(u)) == (g0.decls.spec_get(u) is Some));
            }
            assert forall|a: Seq<u8>, b: Seq<u8>|
                #[trigger] self.has_edge(a, b)
                    == (g0.has_edge(a, b) && a != uri@ && b != uri@) by {
                self.lemma_filtered_edges(g0, uri@, a, b);
            }
            assert(!(self.decls.spec_get(uri@) is Some));
        }
        self.rebuild();
    }

    proof fn lemma_filtered_edges(
        self,
        g0: DependencyGraph,
        uri: Seq<u8>,
        a: Seq<u8>,
        b: Seq<u8>,
    )
        requires
            g0.decls.wf(),
            self.decls.wf(),
            forall|u: Seq<u8>|
                (#[trigger] self.decls.spec_get(u) is Some)
                    == (g0.decls.spec_get(u) is Some && u != uri),
            forall|u: Seq<u8>|
                self.decls.spec_get(u) is Some ==> {
                    &&& uris_view((#[trigger] self.decls.spec_get(u))->Some_0.targets@)
                        =~= remove_all(uris_view(g0.decls.spec_get(u)->Some_0.targets@), uri)
                    &&& uris_view(self.decls.spec_get(u)->Some_0.sources@) =~= remove_all(
                        uris_view(g0.decls.spec_get(u)->Some_0.sources@),
                        uri,
                    )
                },
        ensures
            self.has_edge(a, b) == (g0.has_edge(a, b) && a != uri && b != uri),
    {
        if self.decls.spec_get(a) is Some {
            lemma_remove_all(uris_view(g0.decls.spec_get(a)->Some_0.targets@), uri, b);
        }
        if self.decls.spec_get(b) is Some {
            lemma_remove_all(uris_view(g0.decls.spec_get(b)->Some_0.sources@), uri, a);
        }
    }

    /// The immediate files `uri` sources, from the forward index.
    pub fn get_dependencies(&self, uri: &FileUri) -> (r: Vec<FileUri>)
        requires
            self.wf(),
        ensures
            forall|x: Seq<u8>| (#[trigger] uris_view(r@).contains(x)) == self.has_edge(uri@, x),
            dup_free(uris_view(r@)),
    {
        match self.fwd.get(uri) {
            Some(v) => {
                let r = duplicate_uris(v);
                proof {
                    assert(uris_view(r@) == self.fwd_adj(uri@));
                }
                r
            },
            None => {
                let r = Vec::new();
                proof {
                    assert(uris_view(r@) =~= Seq::<Seq<u8>>::empty());
                    assert forall|x: Seq<u8>| !(#[trigger] self.has_edge(uri@, x)) by {
                        assert(self.fwd_adj(uri@) =~= Seq::<Seq<u8>>::empty());
                        assert(!self.fwd_adj(uri@).contains(x));
                    }
                }
                r
            },
        }
    }

    /// The immediate files that source `uri`, from the reverse index.
    pub fn get_dependents(&self, uri: &FileUri) -> (r: Vec<FileUri>)
        requires
            self.wf(),
        ensures
            forall|x: Seq<u8>| (#[trigger] uris_view(r@).contains(x)) == self.has_edge(x, uri@),
            dup_free(uris_view(r@)),
    {
        match self.rev.get(uri) {
            Some(v) => {
                let r = duplicate_uris(v);
                proof {
                    assert(uris_view(r@) == self.rev_adj(uri@));
                }
                r
            },
            None => {
                let r = Vec::new();
                proof {
                    assert(uris_view(r@) =~= Seq::<Seq<u8>>::empty());
                    assert forall|x: Seq<u8>| !(#[trigger] self.has_edge(x, uri@)) by {
                        assert(self.rev_adj(uri@) =~= Seq::<Seq<u8>>::empty());
                        assert(!self.rev_adj(uri@).contains(x));
                    }
                }
                r
            },
        }
    }

    /// Whether `x` can reach `start` through at most `d` forward edges,
    /// that is, `x` depends on `start` within `d` steps.
    pub open spec fn reach(self, start: Seq<u8>, x: Seq<u8>, d: nat) -> bool
        decreases d,
    {
        x == start || (d > 0 && exists|v: Seq<u8>|
            self.reach(start, v, (d - 1) as nat) && #[trigger] self.has_edge(x, v))
    }

    /// One reverse step extends a reach certificate.
    pub proof fn lemma_reach_step(self, start: Seq<u8>, x: Seq<u8>, v: Seq<u8>, d: nat)
        requires
            d > 0,
            self.reach(start, v, (d - 1) as nat),
            self.has_edge(x, v),
        ensures
            self.reach(start, x, d),
    {
        assert(self.reach(start, v, (d - 1) as nat) && self.has_edge(x, v));
    }

    /// A reached file other than the start has a reached neighbour one
    /// step closer.
    pub proof fn lemma_reach_inv(self, start: Seq<u8>, x: Seq<u8>, d: nat) -> (v: Seq<u8>)
        requires
            self.reach(start, x, d),
            x != start,
        ensures
            d > 0,
            self.reach(start, v, (d - 1) as nat),
            self.has_edge(x, v),
    {
        let v = choose|v: Seq<u8>|
            self.reach(start, v, (d - 1) as nat) && #[trigger] self.has_edge(x, v);
        v
    }

    /// Reachability only grows with the depth bound.
    pub proof fn lemma_reach_mono(self, start: Seq<u8>, x: Seq<u8>, d1: nat, d2: nat)
        requires
            d1 <= d2,
            self.reach(start, x, d1),
        ensures
            self.reach(start, x, d2),
        decreases d2,
    {
        if x != start && d2 > d1 {
            let v = self.lemma_reach_inv(start, x, d1);
            self.lemma_reach_mono(start, v, (d1 - 1) as nat, (d2 - 1) as nat);
            self.lemma_reach_step(start, x, v, d2);
        }
    }

    /// Once one more step discovers nothing new, no further depth does.
    proof fn lemma_reach_fixpoint(self, start: Seq<u8>, d: nat, e: nat)
        requires
            d <= e,
            forall|x: Seq<u8>|
                #[trigger] self.reach(start, x, (d + 1) as nat) == self.reach(start, x, d),
        ensures
            forall|x: Seq<u8>| #[trigger] self.reach(start, x, e) == self.reach(start, x, d),
        decreases e,
    {
        if e > d {
            self.lemma_reach_fixpoint(start, d, (e - 1) as nat);
            assert forall|x: Seq<u8>|
                #[trigger] self.reach(start, x, e) == self.reach(start, x, d) by {
                if self.reach(start, x, e) {
                    if x != start {
                        let v = self.lemma_reach_inv(start, x, e);
                        assert(self.reach(start, v, d));
                        self.lemma_reach_step(start, x, v, (d + 1) as nat);
                    }
                }
                if self.reach(start, x, d) {
                    self.lemma_reach_mono(start, x, d, e);
                }
            }
        }
    }

    /// Every file that transitively depends on `uri` within `max_depth`
    /// reverse steps, breadth first, each file at most once, `uri` itself
    /// excluded.
    pub fn get_transitive_dependents(&self, uri: &FileUri, max_depth: usize) -> (r: Vec<
        FileUri,
    >)
        requires
            self.wf(),
        ensures
            forall|x: Seq<u8>|
                (#[trigger] uris_view(r@).contains(x))
                    == (self.reach(uri@, x, max_depth as nat) && x != uri@),
            dup_free(uris_view(r@)),
            bfs_ordered(*self, uri@, uris_view(r@)),
    {
        let mut visited: Vec<FileUri> = Vec::new();
        push_uri(&mut visited, uri);
        let mut frontier: Vec<FileUri> = Vec::new();
        push_uri(&mut frontier, uri);
        let mut depth: usize = 0;
        proof {
            assert(uris_view(visited@) =~= Seq::<Seq<u8>>::empty().push(uri@));
        }
        while depth < max_depth && frontier.len() > 0
            invariant
                self.wf(),
                depth <= max_depth,
                dup_free(uris_view(visited@)),
                bfs_ordered(*self, uri@, uris_view(visited@)),
                uris_view(visited@).len() > 0 && uris_view(visited@)[0] == uri@,
                forall|x: Seq<u8>|
                    (#[trigger] uris_view(visited@).contains(x))
                        == self.reach(uri@, x, depth as nat),
                forall|x: Seq<u8>|
                    (#[trigger] uris_view(frontier@).contains(x))
                        == (self.reach(uri@, x, depth as nat) && (depth == 0 || !self.reach(
                        uri@,
                        x,
                        (depth - 1) as nat,
                    ))),
            decreases max_depth - depth,
        {
            let ghost d = depth as nat;
            proof {
                assert forall|x: Seq<u8>|
                    #[trigger] uris_view(visited@).contains(x) implies self.reach(
                    uri@,
                    x,
                    (d + 1) as nat,
                ) by {
                    self.lemma_reach_mono(uri@, x, d, (d + 1) as nat);
                }
            }
            let mut next: Vec<FileUri> = Vec::new();
            let mut fi: usize = 0;
            while fi < frontier.len()
                invariant
                    self.wf(),
                    fi <= frontier@.len(),
                    d == depth as nat,
                    depth < max_depth,
                    dup_free(uris_view(visited@)),
                    bfs_ordered(*self, uri@, uris_view(visited@)),
                    uris_view(visited@).len() > 0 && uris_view(visited@)[0] == uri@,
                    forall|x: Seq<u8>|
                        (#[trigger] uris_view(frontier@).contains(x))
                            == (self.reach(uri@, x, d) && (depth == 0 || !self.reach(
                            uri@,
                            x,
                            (d - 1) as nat,
                        ))),
                    forall|x: Seq<u8>|
                        #[trigger] uris_view(visited@).contains(x) ==> self.reach(
                        uri@,
                        x,
                        (d + 1) as nat,
                    ),
                    forall|x: Seq<u8>|
                        self.reach(uri@, x, d) ==> #[trigger] uris_view(visited@).contains(x),
                    forall|x: Seq<u8>|
                        (#[trigger] uris_view(next@).contains(x))
                            == (uris_view(visited@).contains(x) && !self.reach(uri@, x, d)),
                    forall|k: int, x: Seq<u8>|
                        #![trigger uris_view(frontier@)[k], uris_view(visited@).contains(x)]
                        0 <= k < fi && self.has_edge(x, uris_view(frontier@)[k])
                            ==> uris_view(visited@).contains(x),
                decreases frontier@.len() - fi,
            {
                let deps = self.get_dependents(&frontier[fi]);
                let ghost fv = uris_view(frontier@)[fi as int];
                proof {
                    assert(frontier@[fi as int]@ == fv);
                    assert(uris_view(frontier@).contains(fv));
                    assert(self.reach(uri@, fv, d));
                }
                let mut k: usize = 0;
                while k < deps.len()
                    invariant
                        self.wf(),
                        k <= deps@.len(),
                        d == depth as nat,
                        fi < frontier@.len(),
                        fv == uris_view(frontier@)[fi as int],
                        self.reach(uri@, fv, d),
                        forall|x: Seq<u8>|
                            (#[trigger] uris_view(deps@).contains(x)) == self.has_edge(x, fv),
                        dup_free(uris_view(visited@)),
                        bfs_ordered(*self, uri@, uris_view(visited@)),
                        uris_view(visited@).len() > 0 && uris_view(visited@)[0] == uri@,
                        forall|x: Seq<u8>|
                            #[trigger] uris_view(visited@).contains(x) ==> self.reach(
                            uri@,
                            x,
                            (d + 1) as nat,
                        ),
                        forall|x: Seq<u8>|
                            self.reach(uri@, x, d) ==> #[trigger] uris_view(
                                visited@,
                            ).contains(x),
                        forall|x: Seq<u8>|
                            (#[trigger] uris_view(next@).contains(x))
                                == (uris_view(visited@).contains(x) && !self.reach(
                                uri@,
                                x,
                                d,
                            )),
                        forall|kk: int, x: Seq<u8>|
                            #![trigger uris_view(frontier@)[kk], uris_view(visited@).contains(x)]
                            0 <= kk < fi && self.has_edge(x, uris_view(frontier@)[kk])
                                ==> uris_view(visited@).contains(x),
                        forall|kk: int|
                            0 <= kk < k ==> uris_view(visited@).contains(
                                #[trigger] uris_view(deps@)[kk]),
                    decreases deps@.len() - k,
                {
                    proof {
                        assert(uris_view(deps@)[k as int] == deps@[k as int]@);
                        assert(uris_view(deps@).contains(uris_view(deps@)[k as int]));
                        assert(self.has_edge(deps@[k as int]@, fv));
                        self.lemma_reach_step(uri@, deps@[k as int]@, fv, (d + 1) as nat);
                    }
                    if !uris_contain(&visited, &deps[k]) {
                        let ghost vb = uris_view(visited@);
                        push_uri(&mut visited, &deps[k]);
                        push_uri(&mut next, &deps[k]);
                        proof {
                            assert(!self.reach(uri@, deps@[k as int]@, d));
                            // the new entry sits one level deeper than
                            // everything already listed
                            let vv = uris_view(visited@);
                            let x = deps@[k as int]@;
                            assert(vv == vb.push(x));
                            assert forall|p: int, q: int, dd: nat|
                                0 <= p < q < vv.len() && self.reach(uri@, vv[q], dd)
                                implies self.reach(uri@, vv[p], dd) by {
                                if q == vb.len() {
                                    assert(vv[q] == x);
                                    assert(vv[p] == vb[p]);
                                    assert(vb.contains(vb[p]));
                                    assert(self.reach(uri@, vb[p], (d + 1) as nat));
                                    if dd <= d {
                                        self.lemma_reach_mono(uri@, x, dd, d);
                                        assert(false);
                                    } else {
                                        self.lemma_reach_mono(
                                            uri@,
                                            vb[p],
                                            (d + 1) as nat,
                                            dd,
                                        );
                                    }
                                } else {
                                    assert(vv[p] == vb[p]);
                                    assert(vv[q] == vb[q]);
                                }
                            }
                        }
                    }
                    k += 1;
                }
                proof {
                    assert forall|x: Seq<u8>|
                        self.has_edge(x, fv) implies uris_view(visited@).contains(x) by {
                        assert(uris_view(deps@).contains(x));
                        let kk = choose|kk: int|
                            0 <= kk < uris_view(deps@).len() && uris_view(deps@)[kk] == x;
                        assert(uris_view(visited@).contains(uris_view(deps@)[kk]));
                    }
                }
                fi += 1;
            }
            proof {
                let d1 = (d + 1) as nat;
                assert forall|x: Seq<u8>|
                    (#[trigger] uris_view(visited@).contains(x)) == self.reach(uri@, x, d1) by {
                    if self.reach(uri@, x, d1) && !uris_view(visited@).contains(x) {
                        assert(x != uri@);
                        assert(!self.reach(uri@, x, d));
                        let v = self.lemma_reach_inv(uri@, x, d1);
                        assert(self.reach(uri@, v, d));
                        assert(uris_view(visited@).contains(v));
                        if d == 0 || !self.reach(uri@, v, (d - 1) as nat) {
                            // v stood in the processed frontier
                            assert(false) by {
                                assert(uris_view(frontier@).contains(v));
                                let kk = choose|kk: int|
                                    0 <= kk < uris_view(frontier@).len()
                                        && uris_view(frontier@)[kk] == v;
                                assert(uris_view(visited@).contains(x));
                            }
                        } else {
                            // an edge into an older layer was already absorbed
                            self.lemma_reach_step(uri@, x, v, d);
                            assert(false);
                        }
                    }
                }
            }
            depth += 1;
            frontier = next;
        }
        proof {
            if depth < max_depth {
                // The frontier emptied: reachability has stabilised.
                let d = depth as nat;
                assert(depth > 0) by {
                    if depth == 0 {
                        assert(uris_view(frontier@).contains(uri@));
                    }
                }
                assert forall|x: Seq<u8>|
                    #[trigger] self.reach(uri@, x, d) == self.reach(
                    uri@,
                    x,
                    (d - 1) as nat,
                ) by {
                    if self.reach(uri@, x, d) && !self.reach(uri@, x, (d - 1) as nat) {
                        assert(uris_view(frontier@).contains(x));
                    }
                    if self.reach(uri@, x, (d - 1) as nat) {
                        self.lemma_reach_mono(uri@, x, (d - 1) as nat, d);
                    }
                }
                self.lemma_reach_fixpoint(uri@, (d - 1) as nat, max_depth as nat);
                self.lemma_reach_fixpoint(uri@, (d - 1) as nat, d);
                assert forall|x: Seq<u8>|
                    (#[trigger] uris_view(visited@).contains(x)) == self.reach(
                    uri@,
                    x,
                    max_depth as nat,
                ) by {
                    assert(self.reach(uri@, x, max_depth as nat) == self.reach(
                        uri@,
                        x,
                        (d - 1) as nat,
                    ));
                    assert(self.reach(uri@, x, d) == self.reach(uri@, x, (d - 1) as nat));
                }
            }
        }
        // Exclude the start itself, which sits at position 0 exactly once.
        let ghost full = uris_view(visited@);
        let first = visited.remove(0);
        proof {
            assert(first@ == uri@);
            assert(uris_view(visited@) =~= full.subrange(1, full.len() as int));
            let cur = uris_view(visited@);
            assert forall|x: Seq<u8>|
                (#[trigger] cur.contains(x))
                    == (self.reach(uri@, x, max_depth as nat) && x != uri@) by {
                if cur.contains(x) {
                    let i = choose|i: int| 0 <= i < cur.len() && cur[i] == x;
                    assert(full[i + 1] == x);
                    assert(full.contains(x));
                    if x == uri@ {
                        assert(full[0] == uri@);
                        assert(false);
                    }
                }
                if full.contains(x) && x != uri@ {
                    let i = choose|i: int| 0 <= i < full.len() && full[i] == x;
                    assert(i != 0);
                    assert(cur[i - 1] == x);
                    assert(cur.contains(x));
                }
            }
            assert forall|p: int, q: int|
                0 <= p < q < cur.len() implies cur[p] != cur[q] by {
                assert(cur[p] == full[p + 1]);
                assert(cur[q] == full[q + 1]);
            }
            assert forall|p: int, q: int, dd: nat|
                0 <= p < q < cur.len() && self.reach(uri@, cur[q], dd) implies self.reach(
                uri@,
                cur[p],
                dd,
            ) by {
                assert(cur[p] == full[p + 1]);
                assert(cur[q] == full[q + 1]);
            }
        }
        visited
    }
}

/// Edge symmetry: at any well-formed state, the forward index and the
/// reverse index agree on every edge — `b` stands among the forward
/// neighbours of `a` exactly when `a` stands among the reverse
/// neighbours of `b`, and both mean the declared edge `a -> b`.
pub proof fn lemma_edge_symmetry(g: DependencyGraph, a: Seq<u8>, b: Seq<u8>)
    requires
        g.wf(),
    ensures
        g.fwd_adj(a).contains(b) == g.rev_adj(b).contains(a),
        g.fwd_adj(a).contains(b) == g.has_edge(a, b),
{
}

/// `s` without every occurrence of `x`.
pub open spec fn remove_all(s: Seq<Seq<u8>>, x: Seq<u8>) -> Seq<Seq<u8>>
    decreases s.len(),
{
    if s.len() == 0 {
        Seq::empty()
    } else {
        let r = remove_all(s.drop_last(), x);
        if s.last() == x {
            r
        } else {
            r.push(s.last())
        }
    }
}

pub proof fn lemma_remove_all(s: Seq<Seq<u8>>, x: Seq<u8>, y: Seq<u8>)
    ensures
        remove_all(s, x).contains(y) == (s.contains(y) && y != x),
    decreases s.len(),
{
    if s.len() > 0 {
        lemma_remove_all(s.drop_last(), x, y);
        let r = remove_all(s.drop_last(), x);
        if s.last() == x {
            if s.contains(y) && y != x {
                let i = choose|i: int| 0 <= i < s.len() && s[i] == y;
                assert(s.drop_last()[i] == y);
            }
        } else {
            lemma_contains_push_seq(r, s.last(), y);
            if s.contains(y) && y != x && s.last() != y {
                let i = choose|i: int| 0 <= i < s.len() && s[i] == y;
                assert(s.drop_last()[i] == y);
            }
            if s.drop_last().contains(y) {
                let i = choose|i: int| 0 <= i < s.drop_last().len() && s.drop_last()[i] == y;
                assert(s[i] == y);
            }
            if s.last() == y {
                assert(s.contains(y));
            }
        }
    }
}

pub proof fn lemma_contains_push_seq(s: Seq<Seq<u8>>, x: Seq<u8>, y: Seq<u8>)
    ensures
        s.push(x).contains(y) == (s.contains(y) || x == y),
{
    if s.push(x).contains(y) {
        let i = choose|i: int| 0 <= i < s.push(x).len() && s.push(x)[i] == y;
        if i < s.len() {
            assert(s.contains(y));
        }
    }
    if s.contains(y) {
        let i = choose|i: int| 0 <= i < s.len() && s[i] == y;
        assert(s.push(x)[i] == y);
    }
    if x == y {
        assert(s.push(x)[s.len() as int] == y);
    }
}

/// Remove every occurrence of `x` from `v`.
fn filter_out(v: &Vec<FileUri>, x: &FileUri) -> (r: Vec<FileUri>)
    ensures
        uris_view(r@) == remove_all(uris_view(v@), x@),
{
    let mut r: Vec<FileUri> = Vec::new();
    let mut i: usize = 0;
    proof {
        assert(uris_view(v@).subrange(0, 0) =~= Seq::<Seq<u8>>::empty());
        assert(uris_view(r@) =~= remove_all(uris_view(v@).subrange(0, 0), x@));
    }
    while i < v.len()
        invariant
            i <= v.len(),
            uris_view(r@) == remove_all(uris_view(v@).subrange(0, i as int), x@),
        decreases v.len() - i,
    {
        proof {
            let full = uris_view(v@);
            assert(full.subrange(0, i + 1).drop_last() =~= full.subrange(0, i as int));
            assert(full.subrange(0, i + 1).last() == full[i as int]);
            assert(full[i as int] == v@[i as int]@);
        }
        if !v[i].same_as(x) {
            push_uri(&mut r, &v[i]);
        }
        i += 1;
    }
    proof {
        assert(uris_view(v@).subrange(0, v@.len() as int) =~= uris_view(v@));
    }
    r
}

/// Append a copy of `u`, with the new membership fully characterised.
pub fn push_uri(out: &mut Vec<FileUri>, u: &FileUri)
    ensures
        uris_view(final(out)@) == uris_view(old(out)@).push(u@),
        forall|y: Seq<u8>|
            (#[trigger] uris_view(final(out)@).contains(y))
                == (uris_view(old(out)@).contains(y) || y == u@),
        dup_free(uris_view(old(out)@)) && !uris_view(old(out)@).contains(u@)
            ==> dup_free(uris_view(final(out)@)),
{
    let ghost b = out@;
    out.push(u.duplicate());
    proof {
        assert(uris_view(out@) =~= uris_view(b).push(u@));
        assert forall|y: Seq<u8>|
            (#[trigger] uris_view(out@).contains(y))
                == (uris_view(b).contains(y) || y == u@) by {
            lemma_contains_push_seq(uris_view(b), u@, y);
        }
        if dup_free(uris_view(b)) && !uris_view(b).contains(u@) {
            let s = uris_view(b);
            assert forall|p: int, q: int|
                0 <= p < q < uris_view(out@).len() implies uris_view(out@)[p]
                != uris_view(out@)[q] by {
                if q == s.len() {
                    if s[p] == u@ {
                        assert(s.contains(u@));
                    }
                    assert(uris_view(out@)[q] == u@);
                    assert(uris_view(out@)[p] == s[p]);
                }
            }
        }
    }
}

proof fn lemma_uris_subrange_push(s: Seq<FileUri>, i: int, a: Seq<u8>)
    requires
        0 <= i < s.len(),
    ensures
        uris_view(s.subrange(0, i + 1)).contains(a)
            == (uris_view(s.subrange(0, i)).contains(a) || a == s[i]@),
{
    assert(s.subrange(0, i + 1) =~= s.subrange(0, i).push(s[i]));
    assert(uris_view(s.subrange(0, i).push(s[i])) =~= uris_view(s.subrange(0, i)).push(s[i]@));
    lemma_contains_push_seq(uris_view(s.subrange(0, i)), s[i]@, a);
}

proof fn lemma_keys_subrange_push(s: Seq<Seq<u8>>, i: int, a: Seq<u8>)
    requires
        0 <= i < s.len(),
    ensures
        s.subrange(0, i + 1).contains(a) == (s.subrange(0, i).contains(a) || a == s[i]),
{
    assert(s.subrange(0, i + 1) =~= s.subrange(0, i).push(s[i]));
    lemma_contains_push_seq(s.subrange(0, i), s[i], a);
}

} // verus!

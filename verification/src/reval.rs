//! The revalidation planner: after an edit, compute which open files to
//! re-diagnose, mark dependents for forced republication, order the batch
//! by editor activity with the trigger first, and cap its size.

use vstd::prelude::*;

use crate::activity::ActivityTracker;
use crate::activity::score_of;
use crate::gate::DiagnosticsGate;
use crate::gate::GateState;
use crate::graph::DependencyGraph;
use crate::graph::dup_free;
use crate::uri::FileUri;
use crate::uri::lex_less;
use crate::uri::uris_view;
use crate::uri::uris_contain;
use crate::graph::push_uri;

verus! {

/// Priority order used for the fan-out batch: by ascending score, ties by
/// URI bytes. This is a total order.
pub open spec fn prio_le(t: ActivityTracker, a: Seq<u8>, b: Seq<u8>) -> bool {
    ||| score_of(t.rank_of(a)) < score_of(t.rank_of(b))
    ||| (score_of(t.rank_of(a)) == score_of(t.rank_of(b)) && (lex_less(a, b) || a == b))
}

/// `lex_less` is total: two distinct byte strings are ordered one way.
pub proof fn lemma_lex_total(a: Seq<u8>, b: Seq<u8>)
    requires
        !lex_less(a, b),
        a != b,
    ensures
        lex_less(b, a),
    decreases a.len(),
{
    if b.len() == 0 {
        if a.len() == 0 {
            assert(a =~= b);
        }
        assert(lex_less(b, a));
    } else if a.len() == 0 {
        assert(lex_less(a, b));
    } else {
        if a[0] < b[0] {
            assert(lex_less(a, b));
        } else if a[0] > b[0] {
        } else {
            if a.drop_first() =~= b.drop_first() {
                assert(a.len() == b.len());
                assert forall|i: int| 0 <= i < a.len() implies a[i] == b[i] by {
                    if i > 0 {
                        assert(a.drop_first()[i - 1] == a[i]);
                        assert(b.drop_first()[i - 1] == b[i]);
                    }
                }
                assert(a =~= b);
            } else {
                assert(a.drop_first() != b.drop_first());
                lemma_lex_total(a.drop_first(), b.drop_first());
            }
        }
    }
}

/// A file belongs to the fan-out of an edit at `trigger` when it is the
/// trigger itself, or an open file that transitively depends on it.
pub open spec fn is_affected(
    g: DependencyGraph,
    open_docs: Seq<Seq<u8>>,
    trigger: Seq<u8>,
    x: Seq<u8>,
    depth: nat,
) -> bool {
    x == trigger || (g.reach(trigger, x, depth) && x != trigger && open_docs.contains(x))
}

/// `lex_less` is transitive.
pub proof fn lemma_lex_trans(a: Seq<u8>, b: Seq<u8>, c: Seq<u8>)
    requires
        lex_less(a, b),
        lex_less(b, c),
    ensures
        lex_less(a, c),
    decreases a.len(),
{
    if a.len() > 0 && b.len() > 0 && c.len() > 0 {
        if a[0] == b[0] && b[0] == c[0] {
            lemma_lex_trans(a.drop_first(), b.drop_first(), c.drop_first());
        }
    }
}

/// The batch priority order is transitive.
pub proof fn lemma_prio_trans(t: ActivityTracker, a: Seq<u8>, b: Seq<u8>, c: Seq<u8>)
    requires
        prio_le(t, a, b),
        prio_le(t, b, c),
    ensures
        prio_le(t, a, c),
{
    if score_of(t.rank_of(a)) == score_of(t.rank_of(b))
        && score_of(t.rank_of(b)) == score_of(t.rank_of(c)) {
        if lex_less(a, b) && lex_less(b, c) {
            lemma_lex_trans(a, b, c);
        }
    }
}

/// Whether the element at `j` precedes `x` in the batch order.
fn le_at(t: &ActivityTracker, v: &Vec<FileUri>, j: usize, x: &FileUri) -> (r: bool)
    requires
        t.wf(),
        j < v@.len(),
    ensures
        r == prio_le(*t, uris_view(v@)[j as int], x@),
{
    let sx = t.priority_score(x);
    let sj = t.priority_score(&v[j]);
    proof {
        assert(uris_view(v@)[j as int] == v@[j as int]@);
    }
    if sj < sx {
        true
    } else if sj > sx {
        false
    } else {
        if x.lex_before(&v[j]) {
            proof {
                if lex_less(v@[j as int]@, x@) || v@[j as int]@ == x@ {
                    if v@[j as int]@ == x@ {
                        assert(!lex_less(x@, v@[j as int]@)) by {
                            lemma_lex_irrefl(x@);
                        }
                    } else {
                        lemma_lex_trans(x@, v@[j as int]@, x@);
                        lemma_lex_irrefl(x@);
                    }
                }
            }
            false
        } else {
            proof {
                if v@[j as int]@ != x@ {
                    lemma_lex_total(x@, v@[j as int]@);
                }
            }
            true
        }
    }
}

/// Nothing is lexicographically below itself.
pub proof fn lemma_lex_irrefl(a: Seq<u8>)
    ensures
        !lex_less(a, a),
    decreases a.len(),
{
    if a.len() > 0 {
        lemma_lex_irrefl(a.drop_first());
    }
}

/// Insert `x` into the sorted vector `v`, keeping it sorted.
fn sorted_insert(v: &mut Vec<FileUri>, x: FileUri, t: &ActivityTracker)
    requires
        t.wf(),
        forall|i: int, j: int|
            0 <= i < j < old(v)@.len() ==> prio_le(
                *t,
                uris_view(old(v)@)[i],
                uris_view(old(v)@)[j],
            ),
    ensures
        final(v)@.len() == old(v)@.len() + 1,
        forall|y: Seq<u8>|
            (#[trigger] uris_view(final(v)@).contains(y))
                == (uris_view(old(v)@).contains(y) || y == x@),
        forall|i: int, j: int|
            0 <= i < j < final(v)@.len() ==> prio_le(
                *t,
                uris_view(final(v)@)[i],
                uris_view(final(v)@)[j],
            ),
        dup_free(uris_view(old(v)@)) && !uris_view(old(v)@).contains(x@)
            ==> dup_free(uris_view(final(v)@)),
{
    let mut j: usize = 0;
    while j < v.len() && le_at(t, v, j, &x)
        invariant
            t.wf(),
            j <= v@.len(),
            v == old(v),
            forall|p: int| 0 <= p < j ==> prio_le(*t, uris_view(v@)[p], x@),
        decreases v@.len() - j,
    {
        j += 1;
    }
    proof {
        if j < v@.len() {
            assert(!prio_le(*t, uris_view(v@)[j as int], x@));
            if score_of(t.rank_of(x@)) == score_of(t.rank_of(uris_view(v@)[j as int])) {
                if uris_view(v@)[j as int] != x@ {
                    lemma_lex_total(uris_view(v@)[j as int], x@);
                }
            }
            assert(prio_le(*t, x@, uris_view(v@)[j as int]));
        }
    }
    let ghost before = v@;
    let ghost pos = j as int;
    v.insert(j, x);
    proof {
        let cur = uris_view(v@);
        let bv = uris_view(before);
        assert(v@ =~= before.insert(pos, x));
        assert(cur.len() == bv.len() + 1);
        assert forall|i: int| 0 <= i < cur.len() implies cur[i] == (if i < pos {
            bv[i]
        } else if i == pos {
            x@
        } else {
            bv[i - 1]
        }) by {
            assert(cur[i] == v@[i]@);
        }
        assert forall|y: Seq<u8>|
            (#[trigger] cur.contains(y)) == (bv.contains(y) || y == x@) by {
            if cur.contains(y) {
                let i = choose|i: int| 0 <= i < cur.len() && cur[i] == y;
                if i < pos {
                    assert(bv[i] == y);
                } else if i > pos {
                    assert(bv[i - 1] == y);
                }
            }
            if bv.contains(y) {
                let i = choose|i: int| 0 <= i < bv.len() && bv[i] == y;
                if i < pos {
                    assert(cur[i] == y);
                } else {
                    assert(cur[i + 1] == y);
                }
            }
            if y == x@ {
                assert(cur[pos] == y);
            }
        }
        // The new element fits between its neighbours.
        assert forall|i: int, jj: int|
            0 <= i < jj < cur.len() implies prio_le(*t, cur[i], cur[jj]) by {
            if jj < pos {
                assert(prio_le(*t, bv[i], bv[jj]));
            } else if i < pos && jj == pos {
                assert(prio_le(*t, bv[i], x@));
            } else if i < pos && jj > pos {
                assert(prio_le(*t, bv[i], bv[jj - 1]));
            } else if i == pos {
                assert(pos < bv.len());
                assert(prio_le(*t, x@, bv[pos]));
                if jj - 1 > pos {
                    assert(prio_le(*t, bv[pos], bv[jj - 1]));
                    lemma_prio_trans(*t, x@, bv[pos], bv[jj - 1]);
                }
                assert(prio_le(*t, x@, bv[jj - 1]));
            } else {
                assert(prio_le(*t, bv[i - 1], bv[jj - 1]));
            }
        }
        if dup_free(bv) && !bv.contains(x@) {
            assert forall|i: int, jj: int|
                0 <= i < jj < cur.len() implies cur[i] != cur[jj] by {
                if cur[i] == x@ && i != pos {
                    assert(bv.contains(x@));
                }
                if cur[jj] == x@ && jj != pos {
                    assert(bv.contains(x@));
                }
            }
        }
    }
}

/// The fan-out after an edit at `trigger`: every open transitive dependent
/// within `max_chain_depth` is marked for one forced
/// republication; the batch holds the trigger first, then the dependents
/// by ascending priority score with ties broken by URI, truncated to
/// `max_revalidations` entries. A file is left out only when the cap
/// is full.
pub fn plan_revalidation(
    graph: &DependencyGraph,
    activity: &ActivityTracker,
    gate: &mut DiagnosticsGate,
    open_docs: &Vec<FileUri>,
    trigger: &FileUri,
    max_chain_depth: usize,
    max_revalidations: usize,
) -> (r: Vec<FileUri>)
    requires
        graph.wf(),
        activity.wf(),
        old(gate).wf(),
        max_revalidations >= 1,
    ensures
        final(gate).wf(),
        1 <= r@.len() <= max_revalidations,
        uris_view(r@)[0] == trigger@,
        dup_free(uris_view(r@)),
        forall|x: Seq<u8>|
            #[trigger] uris_view(r@).contains(x) ==> is_affected(
                *graph,
                uris_view(open_docs@),
                trigger@,
                x,
                max_chain_depth as nat,
            ),
        forall|x: Seq<u8>|
            is_affected(*graph, uris_view(open_docs@), trigger@, x, max_chain_depth as nat)
                && !(#[trigger] uris_view(r@).contains(x)) ==> r@.len() == max_revalidations,
        forall|i: int, j: int|
            1 <= i < j < r@.len() ==> prio_le(*activity, uris_view(r@)[i], uris_view(r@)[j]),
        forall|x: Seq<u8>, i: int|
            #![trigger uris_view(r@).contains(x), uris_view(r@)[i]]
            is_affected(*graph, uris_view(open_docs@), trigger@, x, max_chain_depth as nat)
                && !uris_view(r@).contains(x) && 1 <= i < r@.len() ==> prio_le(
                *activity,
                uris_view(r@)[i],
                x,
            ),
        forall|u: Seq<u8>|
            (#[trigger] final(gate).state_of(u)) == if is_affected(
                *graph,
                uris_view(open_docs@),
                trigger@,
                u,
                max_chain_depth as nat,
            ) && u != trigger@ {
                GateState { last_published: old(gate).state_of(u).last_published, force_republish: true }
            } else {
                old(gate).state_of(u)
            },
{
    let ghost od = uris_view(open_docs@);
    let ghost depth = max_chain_depth as nat;
    let deps = graph.get_transitive_dependents(trigger, max_chain_depth);
    let mut tail: Vec<FileUri> = Vec::new();
    let mut i: usize = 0;
    while i < deps.len()
        invariant
            graph.wf(),
            activity.wf(),
            gate.wf(),
            i <= deps@.len(),
            depth == max_chain_depth as nat,
            od == uris_view(open_docs@),
            forall|x: Seq<u8>|
                (#[trigger] uris_view(deps@).contains(x))
                    == (graph.reach(trigger@, x, depth) && x != trigger@),
            dup_free(uris_view(deps@)),
            forall|x: Seq<u8>|
                (#[trigger] uris_view(tail@).contains(x))
                    == (uris_view(deps@.subrange(0, i as int)).contains(x) && od.contains(x)),
            dup_free(uris_view(tail@)),
            forall|p: int, q: int|
                0 <= p < q < tail@.len() ==> prio_le(
                    *activity,
                    uris_view(tail@)[p],
                    uris_view(tail@)[q],
                ),
            forall|u: Seq<u8>|
                (#[trigger] gate.state_of(u)) == if uris_view(deps@.subrange(0, i as int))
                    .contains(u) && od.contains(u) {
                    GateState {
                        last_published: old(gate).state_of(u).last_published,
                        force_republish: true,
                    }
                } else {
                    old(gate).state_of(u)
                },
        decreases deps@.len() - i,
    {
        let ghost dsub = uris_view(deps@.subrange(0, i as int));
        proof {
            assert(deps@.subrange(0, i + 1) =~= deps@.subrange(0, i as int).push(
                deps@[i as int],
            ));
            assert(uris_view(deps@.subrange(0, i + 1))
                =~= dsub.push(deps@[i as int]@));
            assert forall|y: Seq<u8>|
                (#[trigger] dsub.push(deps@[i as int]@).contains(y))
                    == (dsub.contains(y) || y == deps@[i as int]@) by {
                crate::graph::lemma_contains_push_seq(dsub, deps@[i as int]@, y);
            }
            assert(uris_view(deps@)[i as int] == deps@[i as int]@);
            // the processed prefix never holds the current element twice
            if dsub.contains(deps@[i as int]@) {
                let p = choose|p: int| 0 <= p < dsub.len() && dsub[p] == deps@[i as int]@;
                assert(uris_view(deps@)[p] == deps@[i as int]@);
            }
        }
        if uris_contain(open_docs, &deps[i]) {
            gate.mark_force_republish(&deps[i]);
            sorted_insert(&mut tail, deps[i].duplicate(), activity);
        }
        i += 1;
    }
    proof {
        assert(deps@.subrange(0, deps@.len() as int) =~= deps@);
    }
    // Assemble: trigger first, dependents in priority order, then cap.
    let mut out: Vec<FileUri> = Vec::new();
    push_uri(&mut out, trigger);
    let mut k: usize = 0;
    while k < tail.len()
        invariant
            k <= tail@.len(),
            uris_view(out@).len() == k + 1,
            uris_view(out@)[0] == trigger@,
            forall|p: int| 0 <= p < k ==> uris_view(out@)[p + 1] == uris_view(tail@)[p],
        decreases tail@.len() - k,
    {
        let ghost before = out@;
        push_uri(&mut out, &tail[k]);
        proof {
            assert(uris_view(out@) =~= uris_view(before).push(tail@[k as int]@));
            assert(uris_view(tail@)[k as int] == tail@[k as int]@);
        }
        k += 1;
    }
    proof {
        let ov = uris_view(out@);
        let tv = uris_view(tail@);
        assert(ov.len() == out@.len());
        assert(ov.len() == tv.len() + 1);
        assert forall|i: int, j: int|
            1 <= i < j < ov.len() implies prio_le(*activity, ov[i], ov[j]) by {
            assert(ov[i] == tv[i - 1]);
            assert(ov[j] == tv[j - 1]);
        }
        assert forall|y: Seq<u8>|
            (#[trigger] ov.contains(y)) == (tv.contains(y) || y == trigger@) by {
            if ov.contains(y) {
                let p = choose|p: int| 0 <= p < ov.len() && ov[p] == y;
                if p > 0 {
                    assert(ov[p] == tv[p - 1]);
                }
            }
            if tv.contains(y) {
                let p = choose|p: int| 0 <= p < tv.len() && tv[p] == y;
                assert(ov[p + 1] == y);
            }
        }
        assert forall|p: int, q: int| 0 <= p < q < ov.len() implies ov[p] != ov[q] by {
            if p == 0 {
                assert(ov[q] == tv[q - 1]);
                assert(tv.contains(tv[q - 1]));
                assert(uris_view(deps@).contains(tv[q - 1]));
                assert(tv[q - 1] != trigger@);
            } else {
                assert(ov[p] == tv[p - 1]);
                assert(ov[q] == tv[q - 1]);
            }
        }
    }
    let ghost whole = out@;
    let ghost wv = uris_view(whole);
    if out.len() > max_revalidations {
        out.truncate(max_revalidations);
        proof {
            assert(out@ =~= whole.subrange(0, max_revalidations as int));
            let ov = uris_view(out@);
            assert forall|i: int| 0 <= i < ov.len() implies ov[i] == wv[i] by {
                assert(out@[i] == whole[i]);
            }
            assert forall|y: Seq<u8>|
                #[trigger] ov.contains(y) implies wv.contains(y) by {
                let p = choose|p: int| 0 <= p < ov.len() && ov[p] == y;
                assert(wv[p] == y);
            }
            assert(ov.len() == out@.len());
        }
    }
    proof {
        // Anything affected yet left out sits in the full batch past the
        // cap, so every kept dependent has at least its priority.
        let ov = uris_view(out@);
        assert(forall|i: int| 0 <= i < ov.len() ==> ov[i] == wv[i]);
        assert forall|x: Seq<u8>, i: int|
            is_affected(*graph, od, trigger@, x, depth) && !ov.contains(x) && 1 <= i
                < out@.len() implies prio_le(*activity, ov[i], x) by {
            if x == trigger@ {
                assert(ov[0] == trigger@);
                assert(ov.contains(x));
            } else {
                assert(uris_view(deps@).contains(x));
                assert(uris_view(deps@.subrange(0, deps@.len() as int)).contains(x));
                assert(uris_view(tail@).contains(x));
                assert(wv.contains(x));
                let p = choose|p: int| 0 <= p < wv.len() && wv[p] == x;
                assert(p >= 1) by {
                    if p == 0 {
                        assert(wv[0] == trigger@);
                    }
                }
                assert(p >= ov.len()) by {
                    if p < ov.len() {
                        assert(ov[p] == wv[p]);
                        assert(ov.contains(x));
                    }
                }
                assert(prio_le(*activity, wv[i], wv[p]));
                assert(ov[i] == wv[i]);
            }
        }
    }
    out
}


/// Pending revalidations: at most one per file; a re-trigger supersedes
/// the old entry, and a close cancels it.
pub struct RevalidationQueue {
    pending: crate::urimap::UriMap<u64>,
    generation: u64,
}

impl RevalidationQueue {
    /// Stored keys never repeat.
    pub closed spec fn wf(self) -> bool {
        self.pending.wf()
    }

    /// The generation of the pending revalidation for `uri`, if any.
    pub closed spec fn pending_of(self, uri: Seq<u8>) -> Option<u64> {
        self.pending.spec_get(uri)
    }

    /// An empty queue.
    pub fn new() -> (r: RevalidationQueue)
        ensures
            r.wf(),
            forall|u: Seq<u8>| r.pending_of(u) is None,
    {
        RevalidationQueue { pending: crate::urimap::UriMap::new(), generation: 0 }
    }

    /// Mark a revalidation pending; a newer trigger supersedes an older
    /// entry for the same file.
    pub fn schedule(&mut self, uri: &FileUri)
        requires
            old(self).wf(),
        ensures
            final(self).wf(),
            final(self).pending_of(uri@) is Some,
            forall|u: Seq<u8>| u != uri@ ==> final(self).pending_of(u) == old(self).pending_of(u),
    {
        if self.generation < u64::MAX {
            self.generation = self.generation + 1;
        }
        self.pending.insert(uri.duplicate(), self.generation);
    }

    /// Cancel the pending revalidation of `uri`, if any.
    pub fn cancel(&mut self, uri: &FileUri)
        requires
            old(self).wf(),
        ensures
            final(self).wf(),
            final(self).pending_of(uri@) is None,
            forall|u: Seq<u8>| u != uri@ ==> final(self).pending_of(u) == old(self).pending_of(u),
    {
        let _ = self.pending.remove(uri);
    }

    /// Whether a revalidation is pending for `uri`.
    pub fn is_pending(&self, uri: &FileUri) -> (r: bool)
        requires
            self.wf(),
        ensures
            r == (self.pending_of(uri@) is Some),
    {
        self.pending.contains_key(uri)
    }
}

} // verus!


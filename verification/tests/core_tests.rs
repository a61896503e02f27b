use cross_file::activity::ActivityTracker;
use cross_file::codec::{deserialize, serialize};
use cross_file::coordinator::{Coordinator, CrossFileConfig, FileChangeKind};
use cross_file::directive::parse_directives;
use cross_file::gate::DiagnosticsGate;
use cross_file::graph::DependencyGraph;
use cross_file::parent::{resolve_parent, ParentCandidate, ParentResolution};
use cross_file::path_resolve::{resolve_edges, resolve_working_directory, PathContext};
use cross_file::reval::plan_revalidation;
use cross_file::scope::{ScopeCache, ScopeFingerprint};
use cross_file::types::{BackwardDirective, CallSiteSpec, CrossFileMetadata, ForwardDirective};
use cross_file::uri::FileUri;

fn test_uri(name: &str) -> FileUri {
    FileUri::from_bytes(format!("file:///{}", name).into_bytes())
}

fn segs(parts: &[&str]) -> Vec<Vec<u8>> {
    parts.iter().map(|p| p.as_bytes().to_vec()).collect()
}

#[test]
fn non_zero_or_falls_back() {
    assert_eq!(cross_file::non_zero_or(5, 1000), 5);
    assert_eq!(cross_file::non_zero_or(0, 1000), 1000);
}

#[test]
fn monotonic_gate_scenario() {
    let mut gate = DiagnosticsGate::new();
    let f = test_uri("f");
    assert!(gate.can_publish(&f, 3));
    gate.record_publish(&f, 3);
    assert!(!gate.can_publish(&f, 3));
    gate.mark_force_republish(&f);
    assert!(gate.can_publish(&f, 3));
    gate.record_publish(&f, 3);
    assert!(!gate.can_publish(&f, 3));
}

#[test]
fn gate_clear_resets() {
    let mut gate = DiagnosticsGate::new();
    let f = test_uri("f");
    gate.record_publish(&f, 7);
    assert!(!gate.can_publish(&f, 7));
    gate.clear(&f);
    assert!(gate.can_publish(&f, 1));
}

#[test]
fn cache_soundness_scenario() {
    let mut cache: ScopeCache<&str> = ScopeCache::new();
    let uri = test_uri("s.R");
    let fp = ScopeFingerprint {
        self_hash: 1,
        edges_hash: 2,
        upstream_interfaces_hash: 3,
        workspace_index_version: 4,
    };
    cache.insert(&uri, fp, "artifacts");
    let stale = ScopeFingerprint { workspace_index_version: 5, ..fp };
    assert!(cache.get_if_fresh(&uri, stale).is_none());
    assert_eq!(cache.get_if_fresh(&uri, fp), Some(&"artifacts"));
}

#[test]
fn graph_edges_are_symmetric() {
    let mut g = DependencyGraph::new();
    let a = test_uri("a.R");
    let b = test_uri("b.R");
    g.set_edges(&a, vec![b.clone()], vec![]);
    let deps = g.get_dependencies(&a);
    let dents = g.get_dependents(&b);
    assert!(deps.iter().any(|u| u == &b));
    assert!(dents.iter().any(|u| u == &a));

    g.remove_file(&b);
    assert!(g.get_dependencies(&a).is_empty());
    assert!(g.get_dependents(&b).is_empty());
}

#[test]
fn transitive_dependents_tolerate_cycles() {
    let mut g = DependencyGraph::new();
    let a = test_uri("a.R");
    let b = test_uri("b.R");
    let c = test_uri("c.R");
    // b depends on a, c depends on b, and a depends on c: a cycle.
    g.set_edges(&b, vec![a.clone()], vec![]);
    g.set_edges(&c, vec![b.clone()], vec![]);
    g.set_edges(&a, vec![c.clone()], vec![]);
    let deps = g.get_transitive_dependents(&a, 10);
    assert_eq!(deps.len(), 2);
    assert!(deps.iter().any(|u| u == &b));
    assert!(deps.iter().any(|u| u == &c));
}

#[test]
fn transitive_dependents_respect_depth_cap() {
    let mut g = DependencyGraph::new();
    let a = test_uri("a.R");
    let b = test_uri("b.R");
    let c = test_uri("c.R");
    g.set_edges(&b, vec![a.clone()], vec![]);
    g.set_edges(&c, vec![b.clone()], vec![]);
    let deps = g.get_transitive_dependents(&a, 1);
    assert_eq!(deps.len(), 1);
    assert!(deps.iter().any(|u| u == &b));
}

#[test]
fn fan_out_cap_scenario() {
    // b, c and d all depend on a; everything open; cap of two.
    let a = test_uri("a");
    let b = test_uri("b");
    let c = test_uri("c");
    let d = test_uri("d");
    let mut g2 = DependencyGraph::new();
    g2.set_edges(&b, vec![a.clone()], vec![]);
    g2.set_edges(&c, vec![a.clone()], vec![]);
    g2.set_edges(&d, vec![a.clone()], vec![]);
    let activity = ActivityTracker::new();
    let mut gate = DiagnosticsGate::new();
    let open_docs = vec![a.clone(), b.clone(), c.clone(), d.clone()];
    let plan = plan_revalidation(&g2, &activity, &mut gate, &open_docs, &a, 10, 2);
    assert_eq!(plan.len(), 2);
    assert_eq!(plan[0], a);
    // Every dependent was marked for one forced republication.
    assert!(gate.can_publish(&b, 0));
}

#[test]
fn fan_out_orders_by_activity() {
    let mut g = DependencyGraph::new();
    let a = test_uri("a");
    let b = test_uri("b");
    let c = test_uri("c");
    g.set_edges(&b, vec![a.clone()], vec![]);
    g.set_edges(&c, vec![a.clone()], vec![]);
    let mut activity = ActivityTracker::new();
    activity.record_recent(&b);
    activity.record_recent(&c);
    activity.set_flags(&b, false, false);
    activity.set_flags(&c, true, false);
    let mut gate = DiagnosticsGate::new();
    let open_docs = vec![a.clone(), b.clone(), c.clone()];
    let plan = plan_revalidation(&g, &activity, &mut gate, &open_docs, &a, 10, 10);
    assert_eq!(plan.len(), 3);
    assert_eq!(plan[0], a);
    assert_eq!(plan[1], c, "the active file comes before the merely recent one");
    assert_eq!(plan[2], b);
}

#[test]
fn parent_determinism_scenario() {
    // Two candidates, both open, equal activity: the lexicographically
    // smaller identifier wins.
    let b = ParentCandidate {
        uri: test_uri("b.R"),
        is_open: true,
        score: 7,
        line: None,
        column: None,
    };
    let a = ParentCandidate {
        uri: test_uri("a.R"),
        is_open: true,
        score: 7,
        line: Some(3),
        column: None,
    };
    match resolve_parent(vec![b, a]) {
        ParentResolution::Single { parent_uri, call_site_line, .. } => {
            assert_eq!(parent_uri, test_uri("a.R"));
            assert_eq!(call_site_line, Some(3));
        }
        _ => panic!("expected a single parent"),
    }
}

#[test]
fn parent_prefers_open_files() {
    let closed = ParentCandidate {
        uri: test_uri("a.R"),
        is_open: false,
        score: 0,
        line: None,
        column: None,
    };
    let opened = ParentCandidate {
        uri: test_uri("z.R"),
        is_open: true,
        score: 9,
        line: None,
        column: None,
    };
    match resolve_parent(vec![closed, opened]) {
        ParentResolution::Single { parent_uri, .. } => {
            assert_eq!(parent_uri, test_uri("z.R"));
        }
        _ => panic!("expected a single parent"),
    }
}

#[test]
fn round_trip_scenario() {
    let meta = CrossFileMetadata {
        sourced_by: vec![BackwardDirective {
            path: b"p".to_vec(),
            call_site: CallSiteSpec::Default,
        }],
        sources: vec![ForwardDirective { path: b"q".to_vec() }],
        working_directory: Some(b"wd".to_vec()),
        ignored_lines: vec![2],
        ignored_next_lines: vec![7],
    };
    let bytes = serialize(&meta);
    let back = deserialize(&bytes).expect("decoding the encoder's output");
    assert!(back.same_as(&meta));
}

#[test]
fn round_trip_of_parsed_metadata() {
    let meta = parse_directives(
        b"# @lsp-sourced-by a.R line=5\n# @lsp-source b.R\n# @lsp-cd wd\n# @lsp-ignore\n# @lsp-ignore-next",
    );
    let bytes = serialize(&meta);
    let back = deserialize(&bytes).expect("decoding the encoder's output");
    assert!(back.same_as(&meta));
}

#[test]
fn deserialize_rejects_garbage() {
    assert!(deserialize(&vec![1, 2, 3]).is_none());
    assert!(deserialize(&Vec::new()).is_none());
}

#[test]
fn workspace_root_resolution() {
    let ctx = PathContext {
        file_dir: segs(&["workspace", "src"]),
        working_directory: None,
        inherited_working_directory: None,
        workspace_root: Some(segs(&["workspace"])),
    };
    let resolved = resolve_working_directory(&b"/lib/util.R".to_vec(), &ctx)
        .expect("a rooted path should resolve");
    assert_eq!(resolved, segs(&["workspace", "lib", "util.R"]));

    let no_root = PathContext {
        file_dir: segs(&["some"]),
        working_directory: None,
        inherited_working_directory: None,
        workspace_root: None,
    };
    assert!(resolve_working_directory(&b"/lib/util.R".to_vec(), &no_root).is_none());
}

#[test]
fn file_relative_resolution() {
    let ctx = PathContext {
        file_dir: segs(&["project", "src"]),
        working_directory: None,
        inherited_working_directory: None,
        workspace_root: Some(segs(&["project"])),
    };
    let resolved = resolve_working_directory(&b"helpers/util.R".to_vec(), &ctx)
        .expect("a sibling path should resolve");
    assert_eq!(resolved, segs(&["project", "src", "helpers", "util.R"]));

    let up = resolve_working_directory(&b"../data/x.R".to_vec(), &ctx)
        .expect("one step up stays inside the root");
    assert_eq!(up, segs(&["project", "data", "x.R"]));

    assert!(
        resolve_working_directory(&b"../../escape.R".to_vec(), &ctx).is_none(),
        "escaping the workspace root is refused"
    );
}

#[test]
fn working_directory_takes_precedence() {
    let ctx = PathContext {
        file_dir: segs(&["project", "src"]),
        working_directory: Some(segs(&["project", "work"])),
        inherited_working_directory: Some(segs(&["project", "inherited"])),
        workspace_root: Some(segs(&["project"])),
    };
    let resolved = resolve_working_directory(&b"x.R".to_vec(), &ctx).unwrap();
    assert_eq!(resolved, segs(&["project", "work", "x.R"]));
}

#[test]
fn coordinator_edit_flow() {
    let mut co: Coordinator<u64> = Coordinator::new(CrossFileConfig {
        max_revalidations_per_trigger: 2,
        ..CrossFileConfig::default()
    });
    let a = test_uri("a");
    let b = test_uri("b");
    let c = test_uri("c");
    let open_docs = vec![a.clone(), b.clone(), c.clone()];
    // b and c declare that they source a.
    co.on_did_change(&b, b"", vec![a.clone()], vec![], &open_docs);
    co.on_did_change(&c, b"", vec![a.clone()], vec![], &open_docs);
    let plan = co.on_did_change(&a, b"# @lsp-cd wd", vec![], vec![], &open_docs);
    assert_eq!(plan.len(), 2);
    assert_eq!(plan[0], a);
    let cached = co.metadata.get(&a).expect("metadata was cached");
    assert_eq!(cached.working_directory, Some(b"wd".to_vec()));

    assert!(co.admit_publish(&a, 1));
    assert!(!co.admit_publish(&a, 1));
    assert!(co.admit_publish(&a, 2));

    co.on_did_close(&a);
    assert!(co.admit_publish(&a, 1));
}

#[test]
fn coordinator_watched_file_deletion() {
    let mut co: Coordinator<u64> = Coordinator::new(CrossFileConfig::default());
    let a = test_uri("a");
    let b = test_uri("b");
    let open_docs = vec![a.clone(), b.clone()];
    co.on_did_change(&b, b"", vec![a.clone()], vec![], &open_docs);
    co.on_watched_file(&a, FileChangeKind::Deleted, false);
    assert!(co.graph.get_dependents(&a).is_empty());
    assert!(co.metadata.get(&a).is_none());
}

#[test]
fn pending_revalidation_is_cancelled_on_close() {
    let mut co: Coordinator<u64> = Coordinator::new(CrossFileConfig::default());
    let a = test_uri("a");
    let open_docs = vec![a.clone()];
    co.on_did_change(&a, b"", vec![], vec![], &open_docs);
    assert!(co.revalidation.is_pending(&a));
    co.on_did_close(&a);
    assert!(!co.revalidation.is_pending(&a));
}

#[test]
fn resolve_edges_follows_directives() {
    let meta =
        parse_directives(b"# @lsp-source lib/a.R\n# @lsp-sourced-by ../main.R\n# @lsp-cd sub");
    let file_dir = segs(&["w", "src"]);
    let (targets, sources) = resolve_edges(&meta, &file_dir, &None, &Some(segs(&["w"])));
    // The declared working directory "sub" gives the base /w/src/sub.
    assert_eq!(targets.len(), 1);
    assert_eq!(
        targets[0],
        FileUri::from_bytes(b"file:///w/src/sub/lib/a.R".to_vec())
    );
    assert_eq!(sources.len(), 1);
    assert_eq!(sources[0], FileUri::from_bytes(b"file:///w/src/main.R".to_vec()));
}

#[test]
fn resolve_edges_drops_unresolvable_paths() {
    let meta = parse_directives(b"# @lsp-source /lib/a.R\n# @lsp-source ../../escape.R");
    let (targets, _) = resolve_edges(&meta, &segs(&["w", "src"]), &None, &Some(segs(&["w"])));
    // The rooted path resolves; the escaping one contributes no edge.
    assert_eq!(targets.len(), 1);
    assert_eq!(targets[0], FileUri::from_bytes(b"file:///w/lib/a.R".to_vec()));
}

#[test]
fn invalidate_many_counts_repeats_once() {
    let mut cache = cross_file::cache::MetadataCache::new();
    let a = test_uri("r1.R");
    cache.insert(a.clone(), CrossFileMetadata::default());
    let count = cache.invalidate_many(&vec![a.clone(), a.clone()]);
    assert_eq!(count, 1);
}

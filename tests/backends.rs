use build_signals::backend::{unique_keys, BuildInfo};
use build_signals::default_backend::DefaultBackend;
use build_signals::graph_backend::{GraphError, LongestPathGraphBackend};
use build_signals::topo::topological_order;
use build_signals::longest_paths::critical_path_potentials;
use build_signals::node_key::{CriticalPathBackendName, NodeDuration, NodeKey};

const SEC: u64 = 1_000_000;

fn dur(s: u64) -> NodeDuration {
    NodeDuration { user: s * SEC, total: s * SEC }
}

fn keys(info: &BuildInfo) -> Vec<NodeKey> {
    info.critical_path.iter().map(|e| e.key).collect()
}

#[test]
fn default_backend_branching_longest_path() {
    let mut b = DefaultBackend::new();
    let k = NodeKey::BuildKey;
    b.process_node(k(1), Some(1), dur(5), vec![], vec![]);
    b.process_node(k(2), Some(2), dur(6), vec![k(1)], vec![]);
    b.process_node(k(3), Some(3), dur(7), vec![k(2)], vec![]);
    b.process_node(k(4), Some(4), dur(9), vec![k(1)], vec![]);
    let info = b.finish().ok().unwrap();
    assert_eq!(keys(&info), vec![k(1), k(2), k(3)]);
    let own: Vec<u64> = info.critical_path.iter().map(|e| e.data.duration.total).collect();
    assert_eq!(own, vec![5 * SEC, 6 * SEC, 7 * SEC]);
    assert!(info.critical_path.iter().all(|e| e.potential_improvement.is_none()));
    assert_eq!(info.num_nodes, 4);
    assert_eq!(info.num_edges, 3);
}

#[test]
fn default_backend_unit_path() {
    let mut b = DefaultBackend::new();
    b.process_node(NodeKey::BuildKey(1), Some(10), dur(3), vec![], vec![42]);
    let info = b.finish().ok().unwrap();
    assert_eq!(info.critical_path.len(), 1);
    assert_eq!(info.critical_path[0].key, NodeKey::BuildKey(1));
    assert_eq!(info.critical_path[0].data.duration.total, 3 * SEC);
    assert_eq!(info.critical_path[0].data.span_ids, vec![42]);
    assert_eq!(info.num_nodes, 1);
    assert_eq!(info.num_edges, 0);
}

#[test]
fn default_backend_empty() {
    let b = DefaultBackend::new();
    let info = b.finish().ok().unwrap();
    assert!(info.critical_path.is_empty());
    assert_eq!(info.num_nodes, 0);
    assert_eq!(info.num_edges, 0);
}

#[test]
fn default_backend_duplicate_deps_count_once() {
    let mut b = DefaultBackend::new();
    let k = NodeKey::AnalysisKey;
    b.process_node(k(1), None, dur(1), vec![], vec![]);
    b.process_node(k(2), None, dur(1), vec![k(1), k(1), k(9)], vec![]);
    let info = b.finish().ok().unwrap();
    assert_eq!(keys(&info), vec![k(1), k(2)]);
    assert_eq!(info.num_edges, 2);
}

#[test]
fn default_backend_ties_pick_first_dep() {
    let mut b = DefaultBackend::new();
    let k = NodeKey::BuildKey;
    b.process_node(k(1), Some(1), dur(4), vec![], vec![]);
    b.process_node(k(2), Some(2), dur(4), vec![], vec![]);
    b.process_node(k(3), Some(3), dur(1), vec![k(2), k(1)], vec![]);
    let info = b.finish().ok().unwrap();
    assert_eq!(keys(&info), vec![k(2), k(3)]);
}

#[test]
fn default_backend_cycle() {
    let mut b = DefaultBackend::new();
    let k = NodeKey::BuildKey;
    b.process_node(k(1), Some(1), dur(5), vec![], vec![]);
    b.process_node(k(2), Some(2), dur(6), vec![k(1)], vec![]);
    b.process_node(k(1), Some(1), dur(5), vec![k(2)], vec![]);
    assert!(b.finish().is_err());
}

#[test]
fn unique_keys_keeps_first_occurrences() {
    let k = NodeKey::BuildKey;
    assert_eq!(unique_keys(&vec![k(3), k(1), k(3), k(2), k(1)]), vec![k(3), k(1), k(2)]);
}

#[test]
fn graph_backend_potentials() {
    let mut b = LongestPathGraphBackend::new();
    let k = NodeKey::BuildKey;
    // A (1s) -> B (10s) -> C (1s), and A -> D (5s) -> C.
    b.process_node(k(1), Some(1), dur(1), vec![], vec![]);
    b.process_node(k(2), Some(2), dur(10), vec![k(1)], vec![]);
    b.process_node(k(4), Some(4), dur(5), vec![k(1)], vec![]);
    b.process_node(k(3), Some(3), dur(1), vec![k(2), k(4)], vec![]);
    let info = b.finish().ok().unwrap();
    assert_eq!(keys(&info), vec![k(1), k(2), k(3)]);
    let potentials: Vec<Option<u64>> =
        info.critical_path.iter().map(|e| e.potential_improvement).collect();
    assert_eq!(potentials, vec![Some(SEC), Some(5 * SEC), Some(SEC)]);
    assert_eq!(info.num_nodes, 4);
    assert_eq!(info.num_edges, 4);
}

#[test]
fn potentials_of_plain_graph() {
    // Vertices A=0, B=1, D=2, C=3.
    let edges = vec![vec![], vec![0], vec![0], vec![1, 2]];
    let d = vec![1, 10, 5, 1];
    let (path, cost, replacement) = critical_path_potentials(&edges, &d);
    assert_eq!(path, vec![0, 1, 3]);
    assert_eq!(cost, 12);
    assert_eq!(replacement, vec![11, 7, 11]);
}

#[test]
fn graph_backend_duplicate_key_is_ignored() {
    let mut b = LongestPathGraphBackend::new();
    let k = NodeKey::BuildKey;
    b.process_node(k(1), Some(1), dur(1), vec![], vec![]);
    b.process_node(k(1), Some(9), dur(50), vec![], vec![]);
    assert_eq!(b.duplicate_keys(), 1);
    let info = b.finish().ok().unwrap();
    assert_eq!(info.num_nodes, 1);
    assert_eq!(info.critical_path.len(), 1);
    assert_eq!(info.critical_path[0].data.action, Some(1));
    assert_eq!(info.critical_path[0].data.duration.total, SEC);
}

#[test]
fn graph_backend_visibility_edges() {
    let mut b = LongestPathGraphBackend::new();
    let analysis = NodeKey::AnalysisKey(7);
    b.process_node(analysis, None, dur(20), vec![], vec![]);
    b.process_node(NodeKey::BuildKey(1), Some(1), dur(2), vec![], vec![]);
    b.process_node(NodeKey::BuildKey(2), Some(2), dur(3), vec![NodeKey::BuildKey(1)], vec![]);
    b.process_top_level_target(analysis, vec![NodeKey::BuildKey(2), NodeKey::BuildKey(99)]);
    let info = b.finish().ok().unwrap();
    // Both builds now wait for the analysis: 20 + 2 + 3.
    assert_eq!(keys(&info), vec![analysis, NodeKey::BuildKey(1), NodeKey::BuildKey(2)]);
    assert_eq!(info.num_edges, 3);
    let potentials: Vec<Option<u64>> =
        info.critical_path.iter().map(|e| e.potential_improvement).collect();
    assert_eq!(potentials, vec![Some(20 * SEC), Some(2 * SEC), Some(3 * SEC)]);
}

#[test]
fn graph_backend_empty() {
    let b = LongestPathGraphBackend::new();
    let info = b.finish().ok().unwrap();
    assert!(info.critical_path.is_empty());
    assert_eq!(info.num_nodes, 0);
    assert_eq!(info.num_edges, 0);
    let _ = GraphError::Overflow;
}

#[test]
fn backend_names() {
    assert_eq!(CriticalPathBackendName::from_name("default"), Some(CriticalPathBackendName::Default));
    assert_eq!(
        CriticalPathBackendName::from_name("longest-path-graph"),
        Some(CriticalPathBackendName::LongestPathGraph)
    );
    assert_eq!(CriticalPathBackendName::from_name("fastest"), None);
    assert_eq!(CriticalPathBackendName::Default.name(), "default");
    assert_eq!(CriticalPathBackendName::LongestPathGraph.name(), "longest-path-graph");
}

#[test]
fn graph_backend_ignores_push_order() {
    let mut b = LongestPathGraphBackend::new();
    let k = NodeKey::BuildKey;
    b.process_node(k(3), Some(3), dur(1), vec![k(2), k(4)], vec![]);
    b.process_node(k(4), Some(4), dur(5), vec![k(1)], vec![]);
    b.process_node(k(2), Some(2), dur(10), vec![k(1)], vec![]);
    b.process_node(k(1), Some(1), dur(1), vec![], vec![]);
    let info = b.finish().ok().unwrap();
    assert_eq!(keys(&info), vec![k(1), k(2), k(3)]);
    let potentials: Vec<Option<u64>> =
        info.critical_path.iter().map(|e| e.potential_improvement).collect();
    assert_eq!(potentials, vec![Some(SEC), Some(5 * SEC), Some(SEC)]);
    assert_eq!(info.num_edges, 4);
}

#[test]
fn graph_backend_cycle_is_an_error() {
    let mut b = LongestPathGraphBackend::new();
    let k = NodeKey::BuildKey;
    b.process_node(k(1), Some(1), dur(1), vec![k(2)], vec![]);
    b.process_node(k(2), Some(2), dur(1), vec![k(1)], vec![]);
    assert_eq!(b.finish().err(), Some(GraphError::Cycle));
}

#[test]
fn topological_order_of_plain_graph() {
    let edges = vec![vec![2], vec![], vec![1]];
    assert_eq!(topological_order(&edges), Some(vec![1, 2, 0]));
    let cyclic = vec![vec![1], vec![0]];
    assert_eq!(topological_order(&cyclic), None);
}

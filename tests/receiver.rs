use build_signals::artifact_tag::ArtifactTag;
use build_signals::backend::{CriticalPathEntry, NodeData};
use build_signals::node_key::{CriticalPathBackendName, EngineKey, NodeDuration, NodeKey};
use build_signals::receiver::{
    top_level_artifact_keys, ArtifactGroup, BuildSignal, BuildSignalReceiver,
    FinalMaterializationSignal, TopLevelTargetSignal,
};
use build_signals::report::{report_entries, ReportKey};
use build_signals::signals::{key_activated, ActivationData, ActivationPayload};

const SEC: u64 = 1_000_000;

fn entry(key: NodeKey, action: Option<u64>) -> CriticalPathEntry {
    CriticalPathEntry {
        key,
        data: NodeData { action, duration: NodeDuration { user: 1, total: 2 }, span_ids: vec![] },
        potential_improvement: None,
    }
}

#[test]
fn empty_build_reports_only_compute_entry() {
    let mut r = BuildSignalReceiver::new(CriticalPathBackendName::Default);
    assert!(r.process_signal(BuildSignal::BuildFinished));
    let info = r.finish().ok().unwrap();
    assert_eq!(info.num_nodes, 0);
    assert_eq!(info.num_edges, 0);
    let report = report_entries(&info.critical_path, 17);
    assert_eq!(report.len(), 1);
    assert_eq!(report[0].key, ReportKey::ComputeCriticalPath);
    assert_eq!(report[0].data.duration, NodeDuration { user: 0, total: 17 });
    assert_eq!(report[0].potential_improvement, Some(17));
}

#[test]
fn unit_build_reports_action_then_compute_entry() {
    for name in [CriticalPathBackendName::Default, CriticalPathBackendName::LongestPathGraph] {
        let mut r = BuildSignalReceiver::new(name);
        let data = ActivationData::Evaluated(ActivationPayload::Action {
            action: 1,
            duration: NodeDuration { user: 3 * SEC, total: 3 * SEC },
            spans: vec![],
        });
        let e = key_activated(&EngineKey::BuildKey(5), &vec![], data).unwrap();
        assert!(!r.process_signal(BuildSignal::Evaluation(e)));
        assert!(r.process_signal(BuildSignal::BuildFinished));
        assert_eq!(r.backend_name(), name);
        let info = r.finish().ok().unwrap();
        assert_eq!(info.num_nodes, 1);
        assert_eq!(info.num_edges, 0);
        let report = report_entries(&info.critical_path, 4);
        assert_eq!(report.len(), 2);
        assert_eq!(report[0].key, ReportKey::Node(NodeKey::BuildKey(5)));
        assert_eq!(report[0].data.duration.total, 3 * SEC);
        assert_eq!(report[1].key, ReportKey::ComputeCriticalPath);
    }
}

#[test]
fn report_filters_hidden_kinds() {
    let path = vec![
        entry(NodeKey::InterpreterResultsKey(1), None),
        entry(NodeKey::ConfiguredTargetNodeKey(2), None),
        entry(NodeKey::AnalysisKey(3), None),
        entry(NodeKey::BuildKey(4), None),
        entry(NodeKey::EnsureProjectedArtifactKey(5), None),
        entry(NodeKey::EnsureTransitiveSetProjectionKey(6), None),
        entry(NodeKey::DeferredCompute(7), None),
        entry(NodeKey::DeferredResolve(8), None),
        entry(NodeKey::BuildKey(9), Some(1)),
        entry(NodeKey::Materialization(10), None),
    ];
    let report = report_entries(&path, 0);
    let keys: Vec<ReportKey> = report.iter().map(|e| e.key).collect();
    assert_eq!(
        keys,
        vec![
            ReportKey::Node(NodeKey::InterpreterResultsKey(1)),
            ReportKey::Node(NodeKey::AnalysisKey(3)),
            ReportKey::Node(NodeKey::BuildKey(9)),
            ReportKey::Node(NodeKey::Materialization(10)),
            ReportKey::ComputeCriticalPath,
        ]
    );
}

#[test]
fn materialization_depends_on_its_build() {
    let mut r = BuildSignalReceiver::new(CriticalPathBackendName::Default);
    let data = ActivationData::Evaluated(ActivationPayload::Action {
        action: 1,
        duration: NodeDuration { user: 2 * SEC, total: 2 * SEC },
        spans: vec![],
    });
    let e = key_activated(&EngineKey::BuildKey(5), &vec![], data).unwrap();
    r.process_signal(BuildSignal::Evaluation(e));
    r.process_signal(BuildSignal::FinalMaterialization(FinalMaterializationSignal {
        artifact: 40,
        action_key: 5,
        duration: NodeDuration { user: SEC, total: SEC },
        span_id: Some(9),
    }));
    let info = r.finish().ok().unwrap();
    let keys: Vec<NodeKey> = info.critical_path.iter().map(|e| e.key).collect();
    assert_eq!(keys, vec![NodeKey::BuildKey(5), NodeKey::Materialization(40)]);
    assert_eq!(info.critical_path[1].data.span_ids, vec![9]);
    assert_eq!(info.num_edges, 1);
}

#[test]
fn top_level_artifacts_resolve() {
    let groups = vec![
        ArtifactGroup::Artifact { action_key: Some(3) },
        ArtifactGroup::Artifact { action_key: None },
        ArtifactGroup::TransitiveSetProjection(8),
    ];
    assert_eq!(
        top_level_artifact_keys(&groups),
        vec![NodeKey::BuildKey(3), NodeKey::EnsureTransitiveSetProjectionKey(8)]
    );
}

#[test]
fn top_level_target_feeds_graph_backend() {
    let mut r = BuildSignalReceiver::new(CriticalPathBackendName::LongestPathGraph);
    let analysis = key_activated(
        &EngineKey::AnalysisKey(7),
        &vec![],
        ActivationData::Evaluated(ActivationPayload::Analysis { duration: 10 * SEC, spans: vec![] }),
    )
    .unwrap();
    r.process_signal(BuildSignal::Evaluation(analysis));
    let build = key_activated(
        &EngineKey::BuildKey(1),
        &vec![],
        ActivationData::Evaluated(ActivationPayload::Action {
            action: 1,
            duration: NodeDuration { user: SEC, total: SEC },
            spans: vec![],
        }),
    )
    .unwrap();
    r.process_signal(BuildSignal::Evaluation(build));
    r.process_signal(BuildSignal::TopLevelTarget(TopLevelTargetSignal {
        label: 7,
        artifacts: vec![ArtifactGroup::Artifact { action_key: Some(1) }],
    }));
    let info = r.finish().ok().unwrap();
    let keys: Vec<NodeKey> = info.critical_path.iter().map(|e| e.key).collect();
    assert_eq!(keys, vec![NodeKey::AnalysisKey(7), NodeKey::BuildKey(1)]);
    assert_eq!(info.num_edges, 1);
}

#[test]
fn artifact_tags_compare_by_identity() {
    let a = ArtifactTag::new();
    let b = ArtifactTag::new();
    let c = a.clone();
    assert!(a.same_tag(&a));
    assert!(a.same_tag(&c));
    assert!(!a.same_tag(&b));
}

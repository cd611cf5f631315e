use build_signals::node_key::{EngineKey, NodeDuration, NodeKey};
use build_signals::signals::{
    key_activated, ActivationData, ActivationPayload, Evaluation, LoadEnricher, LoadResult,
};

fn load(pkg: u64, deps: Vec<u64>) -> Evaluation {
    key_activated(
        &EngineKey::InterpreterResultsKey(pkg),
        &vec![],
        ActivationData::Evaluated(ActivationPayload::Load {
            duration: 4,
            result: Some(LoadResult { dep_packages: deps }),
            spans: vec![],
        }),
    )
    .unwrap()
}

#[test]
fn unrecognized_key_is_ignored() {
    let e = key_activated(&EngineKey::Unrecognized, &vec![EngineKey::BuildKey(1)], ActivationData::Cached);
    assert!(e.is_none());
}

#[test]
fn unrecognized_deps_are_dropped() {
    let deps = vec![
        EngineKey::Unrecognized,
        EngineKey::AnalysisKey(4),
        EngineKey::Unrecognized,
        EngineKey::DeferredCompute(5),
        EngineKey::AnalysisKey(4),
    ];
    let e = key_activated(&EngineKey::ConfiguredTargetNodeKey(1), &deps, ActivationData::Cached).unwrap();
    assert_eq!(e.key, NodeKey::ConfiguredTargetNodeKey(1));
    assert_eq!(
        e.dep_keys,
        vec![NodeKey::AnalysisKey(4), NodeKey::DeferredCompute(5), NodeKey::AnalysisKey(4)]
    );
    assert_eq!(e.duration, NodeDuration { user: 0, total: 0 });
    assert!(e.spans.is_empty());
    assert!(e.action.is_none());
    assert!(e.load_result.is_none());
}

#[test]
fn action_payload_sets_both_durations() {
    let data = ActivationData::Evaluated(ActivationPayload::Action {
        action: 77,
        duration: NodeDuration { user: 2, total: 9 },
        spans: vec![5, 6],
    });
    let e = key_activated(&EngineKey::BuildKey(3), &vec![], data).unwrap();
    assert_eq!(e.action, Some(77));
    assert_eq!(e.duration, NodeDuration { user: 2, total: 9 });
    assert_eq!(e.spans, vec![5, 6]);
}

#[test]
fn action_kept_only_on_build_keys() {
    let data = ActivationData::Evaluated(ActivationPayload::Action {
        action: 77,
        duration: NodeDuration { user: 2, total: 9 },
        spans: vec![],
    });
    let e = key_activated(&EngineKey::AnalysisKey(3), &vec![], data).unwrap();
    assert_eq!(e.action, None);
    assert_eq!(e.duration, NodeDuration { user: 2, total: 9 });
}

#[test]
fn analysis_payload_uses_one_duration() {
    let data = ActivationData::Evaluated(ActivationPayload::Analysis { duration: 12, spans: vec![1] });
    let e = key_activated(&EngineKey::AnalysisKey(3), &vec![], data).unwrap();
    assert_eq!(e.duration, NodeDuration { user: 12, total: 12 });
    assert_eq!(e.spans, vec![1]);
    assert!(e.action.is_none());
}

#[test]
fn other_payload_leaves_defaults() {
    let data = ActivationData::Evaluated(ActivationPayload::Other);
    let e = key_activated(&EngineKey::DeferredResolve(3), &vec![], data).unwrap();
    assert_eq!(e.duration, NodeDuration { user: 0, total: 0 });
}

#[test]
fn load_enrichment_first_writer_wins() {
    let mut enricher = LoadEnricher::new();
    let mut first = load(1, vec![2, 3]);
    enricher.enrich_load(&mut first);
    assert!(first.dep_keys.is_empty());
    let mut second = load(2, vec![3]);
    enricher.enrich_load(&mut second);
    assert_eq!(enricher.first_edge_to_load(2), Some(1));
    assert_eq!(enricher.first_edge_to_load(3), Some(1));
    assert_eq!(enricher.first_edge_to_load(1), None);
    assert_eq!(second.dep_keys, vec![NodeKey::InterpreterResultsKey(1)]);
    let mut third = load(3, vec![]);
    enricher.enrich_load(&mut third);
    assert_eq!(third.dep_keys, vec![NodeKey::InterpreterResultsKey(1)]);
}

#[test]
fn load_does_not_discover_itself() {
    let mut enricher = LoadEnricher::new();
    let mut e = load(5, vec![5, 6, 6]);
    enricher.enrich_load(&mut e);
    assert_eq!(enricher.first_edge_to_load(5), None);
    assert_eq!(enricher.first_edge_to_load(6), Some(5));
    assert!(e.dep_keys.is_empty());
}

#[test]
fn non_load_evaluation_is_untouched() {
    let mut enricher = LoadEnricher::new();
    let mut l = load(1, vec![2]);
    enricher.enrich_load(&mut l);
    let mut e = key_activated(&EngineKey::BuildKey(2), &vec![EngineKey::BuildKey(8)], ActivationData::Cached).unwrap();
    enricher.enrich_load(&mut e);
    assert_eq!(e.dep_keys, vec![NodeKey::BuildKey(8)]);
}

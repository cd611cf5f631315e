//! The consumer of build signals: it enriches loads, hands nodes to the chosen backend, and
//! turns the backend's critical path into the entries of the final report.
use crate::backend::{BuildInfo, NodeData};
use crate::critical_path::CriticalPathNode;
use crate::default_backend::DefaultBackend;
use crate::graph_backend::{GraphError, LongestPathGraphBackend};
use crate::node_key::{CriticalPathBackendName, NodeDuration, NodeKey};
use crate::signals::{lists, no_self_edges, record_load, record_loads, Evaluation, LoadEnricher};
use vstd::prelude::*;

verus! {

/// An artifact group named by a top-level target.
#[derive(Debug, Clone, Copy, PartialEq, Eq, Structural)]
pub enum ArtifactGroup {
    /// A concrete artifact, with the action that builds it if it is a built one.
    Artifact { action_key: Option<u64> },
    /// A projection of a transitive set.
    TransitiveSetProjection(u64),
}

/// A configured target that was built, and the artifact groups it asked for.
#[derive(Debug)]
pub struct TopLevelTargetSignal {
    pub label: u64,
    pub artifacts: Vec<ArtifactGroup>,
}

/// An artifact of the build was materialized at its final place.
#[derive(Debug)]
pub struct FinalMaterializationSignal {
    pub artifact: u64,
    /// The action that builds the artifact.
    pub action_key: u64,
    pub duration: NodeDuration,
    pub span_id: Option<u64>,
}

/// What producers send to the receiver.
#[derive(Debug)]
pub enum BuildSignal {
    Evaluation(Evaluation),
    TopLevelTarget(TopLevelTargetSignal),
    FinalMaterialization(FinalMaterializationSignal),
    BuildFinished,
}

/// The node an artifact group resolves to, if it resolves to a built artifact.
pub open spec fn group_key(g: ArtifactGroup) -> Option<NodeKey> {
    match g {
        ArtifactGroup::Artifact { action_key: Some(k) } => Some(NodeKey::BuildKey(k)),
        ArtifactGroup::Artifact { action_key: None } => None,
        ArtifactGroup::TransitiveSetProjection(k) => Some(
            NodeKey::EnsureTransitiveSetProjectionKey(k),
        ),
    }
}

/// The nodes of the groups that resolve, in order.
pub open spec fn group_keys(s: Seq<ArtifactGroup>) -> Seq<NodeKey>
    decreases s.len(),
{
    if s.len() == 0 {
        Seq::empty()
    } else {
        match group_key(s.last()) {
            Some(k) => group_keys(s.drop_last()).push(k),
            None => group_keys(s.drop_last()),
        }
    }
}

/// The nodes of the artifact groups of a top-level target; groups that are not built
/// artifacts are dropped.
pub fn top_level_artifact_keys(artifacts: &Vec<ArtifactGroup>) -> (r: Vec<NodeKey>)
    ensures
        r@ == group_keys(artifacts@),
{
    let mut r: Vec<NodeKey> = Vec::new();
    let mut i: usize = 0;
    while i < artifacts.len()
        invariant
            i <= artifacts@.len(),
            r@ == group_keys(artifacts@.subrange(0, i as int)),
        decreases artifacts@.len() - i,
    {
        assert(artifacts@.subrange(0, i + 1).drop_last() =~= artifacts@.subrange(0, i as int));
        match artifacts[i] {
            ArtifactGroup::Artifact { action_key: Some(k) } => r.push(NodeKey::BuildKey(k)),
            ArtifactGroup::Artifact { action_key: None } => {},
            ArtifactGroup::TransitiveSetProjection(k) => r.push(
                NodeKey::EnsureTransitiveSetProjectionKey(k),
            ),
        }
        i = i + 1;
    }
    assert(artifacts@.subrange(0, artifacts@.len() as int) =~= artifacts@);
    r
}

/// The node of a final materialization, its one dependency (the build of the artifact),
/// and its spans.
pub fn materialization_node(m: &FinalMaterializationSignal) -> (r: (NodeKey, Vec<NodeKey>, Vec<u64>))
    ensures
        r.0 == NodeKey::Materialization(m.artifact),
        r.1@ == seq![NodeKey::BuildKey(m.action_key)],
        r.2@ == match m.span_id {
            Some(s) => seq![s],
            None => Seq::<u64>::empty(),
        },
{
    let mut deps: Vec<NodeKey> = Vec::new();
    deps.push(NodeKey::BuildKey(m.action_key));
    let mut spans: Vec<u64> = Vec::new();
    if let Some(s) = m.span_id {
        spans.push(s);
    }
    proof {
        assert(deps@ =~= seq![NodeKey::BuildKey(m.action_key)]);
        if let Some(s) = m.span_id {
            assert(spans@ =~= seq![s]);
        } else {
            assert(spans@ =~= Seq::<u64>::empty());
        }
    }
    (NodeKey::Materialization(m.artifact), deps, spans)
}

/// The dependencies of an evaluation once enriched: a load also depends on the load that
/// first reached its package, if any.
pub open spec fn enriched_deps(key: NodeKey, deps: Seq<NodeKey>, loads: Map<u64, u64>) -> Seq<NodeKey> {
    match key {
        NodeKey::InterpreterResultsKey(pkg) => if loads.contains_key(pkg) {
            deps.push(NodeKey::InterpreterResultsKey(loads[pkg]))
        } else {
            deps
        },
        _ => deps,
    }
}

/// `b` holds nothing yet: no node, no edge, no visibility edge, no soft error.
pub open spec fn empty_backend(b: Backend) -> bool {
    match b {
        Backend::Default(d) => {
            &&& d.predecessor_map()@ == Map::<u64, CriticalPathNode<NodeData>>::empty()
            &&& forall|k: NodeKey| !d.has(k)
            &&& d.nodes() == 0
            &&& d.edges() == 0
        },
        Backend::LongestPathGraph(g) => {
            &&& g.vertices() == Seq::<NodeKey>::empty()
            &&& g.visibility() == Seq::<(NodeKey, Seq<NodeKey>)>::empty()
            &&& g.duplicates() == 0
            &&& !g.poisoned()
        },
    }
}

/// One of the two critical-path backends.
pub enum Backend {
    Default(DefaultBackend),
    LongestPathGraph(LongestPathGraphBackend),
}

/// Why no critical path came out of a backend.
#[derive(Debug, Clone, Copy, PartialEq, Eq, Structural)]
pub enum BackendError {
    /// The default backend met this node twice walking back.
    Cycle(u64),
    Graph(GraphError),
}

/// `after` is `before` once `analysis` was recorded as making `artifacts` visible.
pub open spec fn visibility_recorded(
    before: Backend,
    after: Backend,
    analysis: NodeKey,
    artifacts: Seq<NodeKey>,
) -> bool {
    match (before, after) {
        (Backend::Default(a), Backend::Default(b)) => b == a,
        (Backend::LongestPathGraph(a), Backend::LongestPathGraph(b)) => {
            &&& b.vertices() == a.vertices()
            &&& b.vertex_data() == a.vertex_data()
            &&& b.vertex_deps() == a.vertex_deps()
            &&& b.duplicates() == a.duplicates()
            &&& b.poisoned() == a.poisoned()
            &&& b.visibility() == a.visibility().push((analysis, artifacts))
        },
        _ => false,
    }
}

/// `after` is `before` once `key` was processed with these arguments, as the backend's own
/// `process_node` states it.
pub open spec fn processed(
    before: Backend,
    after: Backend,
    key: NodeKey,
    action: Option<u64>,
    duration: NodeDuration,
    dep_keys: Seq<NodeKey>,
    span_ids: Seq<u64>,
) -> bool {
    match (before, after) {
        (Backend::Default(a), Backend::Default(b)) => a.after_process(
            &b,
            key,
            action,
            duration,
            dep_keys,
            span_ids,
        ),
        (Backend::LongestPathGraph(a), Backend::LongestPathGraph(b)) => a.after_process(
            &b,
            key,
            action,
            duration,
            dep_keys,
            span_ids,
        ),
        _ => false,
    }
}

/// `r` is what the backend's own `finish` states for `b`.
pub open spec fn finished_by(b: Backend, r: Result<BuildInfo, BackendError>) -> bool {
    match b {
        Backend::Default(d) => {
            &&& (r is Ok <==> crate::critical_path::acyclic(d.predecessor_map()@))
            &&& (r matches Ok(info) ==> d.finished(info))
            &&& !(r matches Err(BackendError::Graph(_)))
        },
        Backend::LongestPathGraph(g) => {
            &&& (r == Err::<BuildInfo, BackendError>(BackendError::Graph(GraphError::Overflow))
                <==> g.poisoned())
            &&& (r == Err::<BuildInfo, BackendError>(BackendError::Graph(GraphError::Cycle))
                ==> g.cyclic())
            &&& (r matches Ok(info) ==> g.finished(info))
            &&& !(r matches Err(BackendError::Cycle(_)))
        },
    }
}

impl Backend {
    pub open spec fn wf(&self) -> bool {
        match self {
            Backend::Default(b) => b.wf(),
            Backend::LongestPathGraph(b) => b.wf(),
        }
    }

    pub open spec fn spec_name(&self) -> CriticalPathBackendName {
        match self {
            Backend::Default(_) => CriticalPathBackendName::Default,
            Backend::LongestPathGraph(_) => CriticalPathBackendName::LongestPathGraph,
        }
    }

    pub fn new(name: CriticalPathBackendName) -> (r: Self)
        ensures
            r.wf(),
            r.spec_name() == name,
            empty_backend(r),
    {
        match name {
            CriticalPathBackendName::Default => Backend::Default(DefaultBackend::new()),
            CriticalPathBackendName::LongestPathGraph => Backend::LongestPathGraph(
                LongestPathGraphBackend::new(),
            ),
        }
    }

    pub fn name(&self) -> (r: CriticalPathBackendName)
        ensures
            r == self.spec_name(),
    {
        match self {
            Backend::Default(_) => CriticalPathBackendName::Default,
            Backend::LongestPathGraph(_) => CriticalPathBackendName::LongestPathGraph,
        }
    }

    pub fn process_node(
        &mut self,
        key: NodeKey,
        action: Option<u64>,
        duration: NodeDuration,
        dep_keys: Vec<NodeKey>,
        span_ids: Vec<u64>,
    )
        requires
            old(self).wf(),
        ensures
            final(self).wf(),
            final(self).spec_name() == old(self).spec_name(),
            processed(*old(self), *final(self), key, action, duration, dep_keys@, span_ids@),
    {
        match self {
            Backend::Default(b) => b.process_node(key, action, duration, dep_keys, span_ids),
            Backend::LongestPathGraph(b) => b.process_node(
                key,
                action,
                duration,
                dep_keys,
                span_ids,
            ),
        }
    }

    /// Only the graph backend makes use of top-level targets.
    pub fn process_top_level_target(&mut self, analysis: NodeKey, artifacts: Vec<NodeKey>)
        requires
            old(self).wf(),
        ensures
            final(self).wf(),
            final(self).spec_name() == old(self).spec_name(),
            visibility_recorded(*old(self), *final(self), analysis, artifacts@),
    {
        match self {
            Backend::Default(_) => {},
            Backend::LongestPathGraph(b) => b.process_top_level_target(analysis, artifacts),
        }
    }

    pub fn finish(&self) -> (r: Result<BuildInfo, BackendError>)
        requires
            self.wf(),
        ensures
            finished_by(*self, r),
    {
        match self {
            Backend::Default(b) => match b.finish() {
                Ok(info) => Ok(info),
                Err(e) => Err(BackendError::Cycle(e.key)),
            },
            Backend::LongestPathGraph(b) => match b.finish() {
                Ok(info) => Ok(info),
                Err(e) => Err(BackendError::Graph(e)),
            },
        }
    }
}

/// Receives build signals one at a time, for one build.
pub struct BuildSignalReceiver {
    first_edge_to_load: LoadEnricher,
    backend: Backend,
}

impl BuildSignalReceiver {
    pub closed spec fn wf(&self) -> bool {
        &&& self.backend.wf()
        &&& no_self_edges(self.first_edge_to_load@)
        &&& self.first_edge_to_load@ == record_loads(self.first_edge_to_load.history())
    }

    /// The loads processed so far, each its package and the packages it reached.
    pub closed spec fn load_history(&self) -> Seq<(u64, Seq<u64>)> {
        self.first_edge_to_load.history()
    }

    /// Whatever sequence of loads came in, each package is mapped to the first load that
    /// reached it (other than its own), and only reached packages are mapped.
    pub proof fn lemma_first_load_wins(&self)
        requires
            self.wf(),
        ensures
            self.loads() == record_loads(self.load_history()),
            forall|d: u64|
                #![trigger self.loads().contains_key(d)]
                self.loads().contains_key(d) <==> exists|i: int|
                    0 <= i < self.load_history().len() && #[trigger] lists(self.load_history(), i, d),
            forall|d: u64, i: int|
                0 <= i < self.load_history().len() && #[trigger] lists(self.load_history(), i, d)
                    && (forall|j: int| 0 <= j < i ==> !#[trigger] lists(self.load_history(), j, d))
                    ==> self.loads()[d] == self.load_history()[i].0,
    {
        crate::signals::lemma_first_load_wins(self.load_history());
    }

    /// Which package load first reached each package.
    pub closed spec fn loads(&self) -> Map<u64, u64> {
        self.first_edge_to_load@
    }

    /// No package is recorded as discovered by its own load, so an added load dependency
    /// never points back at the load itself.
    pub proof fn lemma_no_self_edges(&self)
        requires
            self.wf(),
        ensures
            no_self_edges(self.loads()),
    {
    }

    pub closed spec fn spec_backend(&self) -> Backend {
        self.backend
    }

    pub fn new(name: CriticalPathBackendName) -> (r: Self)
        ensures
            r.wf(),
            r.loads() == Map::<u64, u64>::empty(),
            r.load_history() == Seq::<(u64, Seq<u64>)>::empty(),
            r.spec_backend().spec_name() == name,
            empty_backend(r.spec_backend()),
    {
        BuildSignalReceiver { first_edge_to_load: LoadEnricher::new(), backend: Backend::new(name) }
    }

    /// How many duplicate keys the backend dropped, each a soft error to report.
    pub fn duplicate_keys(&self) -> (r: u64)
        ensures
            r == match self.spec_backend() {
                Backend::LongestPathGraph(b) => b.duplicates(),
                Backend::Default(_) => 0,
            },
    {
        match &self.backend {
            Backend::LongestPathGraph(b) => b.duplicate_keys(),
            Backend::Default(_) => 0,
        }
    }

    pub fn backend_name(&self) -> (r: CriticalPathBackendName)
        ensures
            r == self.spec_backend().spec_name(),
    {
        self.backend.name()
    }

    /// Enriches a load, then hands the evaluation to the backend.
    pub fn process_evaluation(&mut self, evaluation: Evaluation)
        requires
            old(self).wf(),
        ensures
            final(self).wf(),
            final(self).load_history() == match (evaluation.key, &evaluation.load_result) {
                (NodeKey::InterpreterResultsKey(pkg), Some(result)) => old(self).load_history().push(
                    (pkg, result.dep_packages@),
                ),
                _ => old(self).load_history(),
            },
            final(self).spec_backend().spec_name() == old(self).spec_backend().spec_name(),
            final(self).loads() == match (evaluation.key, &evaluation.load_result) {
                (NodeKey::InterpreterResultsKey(pkg), Some(result)) => record_load(
                    old(self).loads(),
                    pkg,
                    result.dep_packages@,
                ),
                _ => old(self).loads(),
            },
            processed(
                old(self).spec_backend(),
                final(self).spec_backend(),
                evaluation.key,
                evaluation.action,
                evaluation.duration,
                enriched_deps(evaluation.key, evaluation.dep_keys@, final(self).loads()),
                evaluation.spans@,
            ),
    {
        let mut evaluation = evaluation;
        self.first_edge_to_load.enrich_load(&mut evaluation);
        self.backend.process_node(
            evaluation.key,
            evaluation.action,
            evaluation.duration,
            evaluation.dep_keys,
            evaluation.spans,
        );
    }

    /// Hands the analysis of the target and the nodes of its artifacts to the backend.
    pub fn process_top_level_target(&mut self, top_level: TopLevelTargetSignal)
        requires
            old(self).wf(),
        ensures
            final(self).wf(),
            final(self).spec_backend().spec_name() == old(self).spec_backend().spec_name(),
            final(self).loads() == old(self).loads(),
            final(self).load_history() == old(self).load_history(),
            visibility_recorded(
                old(self).spec_backend(),
                final(self).spec_backend(),
                NodeKey::AnalysisKey(top_level.label),
                group_keys(top_level.artifacts@),
            ),
    {
        let artifacts = top_level_artifact_keys(&top_level.artifacts);
        self.backend.process_top_level_target(NodeKey::AnalysisKey(top_level.label), artifacts);
    }

    /// Adds a materialization node that depends on the build of its artifact.
    pub fn process_final_materialization(&mut self, materialization: FinalMaterializationSignal)
        requires
            old(self).wf(),
        ensures
            final(self).wf(),
            final(self).spec_backend().spec_name() == old(self).spec_backend().spec_name(),
            final(self).loads() == old(self).loads(),
            final(self).load_history() == old(self).load_history(),
            processed(
                old(self).spec_backend(),
                final(self).spec_backend(),
                NodeKey::Materialization(materialization.artifact),
                None,
                materialization.duration,
                seq![NodeKey::BuildKey(materialization.action_key)],
                match materialization.span_id {
                    Some(s) => seq![s],
                    None => Seq::<u64>::empty(),
                },
            ),
    {
        let (key, deps, spans) = materialization_node(&materialization);
        self.backend.process_node(key, None, materialization.duration, deps, spans);
    }

    /// Processes one signal; returns whether it was the last one of the build.
    pub fn process_signal(&mut self, signal: BuildSignal) -> (finished: bool)
        requires
            old(self).wf(),
        ensures
            final(self).wf(),
            final(self).spec_backend().spec_name() == old(self).spec_backend().spec_name(),
            finished <==> signal is BuildFinished,
            signal is BuildFinished ==> *final(self) == *old(self),
            signal matches BuildSignal::Evaluation(e) ==> {
                &&& final(self).load_history() == match (e.key, &e.load_result) {
                    (NodeKey::InterpreterResultsKey(pkg), Some(result)) => old(self).load_history().push(
                        (pkg, result.dep_packages@),
                    ),
                    _ => old(self).load_history(),
                }
                &&& final(self).loads() == match (e.key, &e.load_result) {
                    (NodeKey::InterpreterResultsKey(pkg), Some(result)) => record_load(
                        old(self).loads(),
                        pkg,
                        result.dep_packages@,
                    ),
                    _ => old(self).loads(),
                }
                &&& processed(
                    old(self).spec_backend(),
                    final(self).spec_backend(),
                    e.key,
                    e.action,
                    e.duration,
                    enriched_deps(e.key, e.dep_keys@, final(self).loads()),
                    e.spans@,
                )
            },
            signal matches BuildSignal::TopLevelTarget(t) ==> {
                &&& final(self).loads() == old(self).loads()
                &&& final(self).load_history() == old(self).load_history()
                &&& visibility_recorded(
                    old(self).spec_backend(),
                    final(self).spec_backend(),
                    NodeKey::AnalysisKey(t.label),
                    group_keys(t.artifacts@),
                )
            },
            signal matches BuildSignal::FinalMaterialization(m) ==> {
                &&& final(self).loads() == old(self).loads()
                &&& final(self).load_history() == old(self).load_history()
                &&& processed(
                    old(self).spec_backend(),
                    final(self).spec_backend(),
                    NodeKey::Materialization(m.artifact),
                    None,
                    m.duration,
                    seq![NodeKey::BuildKey(m.action_key)],
                    match m.span_id {
                        Some(s) => seq![s],
                        None => Seq::<u64>::empty(),
                    },
                )
            },
    {
        match signal {
            BuildSignal::Evaluation(e) => {
                self.process_evaluation(e);
                false
            },
            BuildSignal::TopLevelTarget(t) => {
                self.process_top_level_target(t);
                false
            },
            BuildSignal::FinalMaterialization(m) => {
                self.process_final_materialization(m);
                false
            },
            BuildSignal::BuildFinished => true,
        }
    }

    pub fn finish(&self) -> (r: Result<BuildInfo, BackendError>)
        requires
            self.wf(),
        ensures
            finished_by(self.spec_backend(), r),
    {
        self.backend.finish()
    }
}

} // verus!

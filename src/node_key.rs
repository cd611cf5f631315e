//! The keys of the critical-path graph, their durations, and the choice of backend.
use vstd::prelude::*;

verus! {

/// A node of the critical-path graph. The payloads identify the underlying build entity; two
/// keys are equal exactly when their variants and payloads are.
#[derive(Debug, Clone, Copy, PartialEq, Eq, Hash, Structural)]
pub enum NodeKey {
    /// The execution of the action with this id.
    BuildKey(u64),
    /// The analysis of the configured target with this id.
    AnalysisKey(u64),
    EnsureProjectedArtifactKey(u64),
    EnsureTransitiveSetProjectionKey(u64),
    DeferredCompute(u64),
    DeferredResolve(u64),
    ConfiguredTargetNodeKey(u64),
    /// The load of the package with this id.
    InterpreterResultsKey(u64),
    /// The final materialization of the artifact with this id; never an engine key.
    Materialization(u64),
}

/// A key as the build engine reports it: one of the recognized kinds, or anything else.
#[derive(Debug, Clone, Copy, PartialEq, Eq, Hash, Structural)]
pub enum EngineKey {
    BuildKey(u64),
    AnalysisKey(u64),
    EnsureProjectedArtifactKey(u64),
    EnsureTransitiveSetProjectionKey(u64),
    DeferredCompute(u64),
    DeferredResolve(u64),
    ConfiguredTargetNodeKey(u64),
    InterpreterResultsKey(u64),
    /// A key of a kind the critical path does not track.
    Unrecognized,
}

/// The node an engine key stands for, if it is of a recognized kind.
pub open spec fn spec_from_engine(key: EngineKey) -> Option<NodeKey> {
    match key {
        EngineKey::BuildKey(k) => Some(NodeKey::BuildKey(k)),
        EngineKey::AnalysisKey(k) => Some(NodeKey::AnalysisKey(k)),
        EngineKey::EnsureProjectedArtifactKey(k) => Some(NodeKey::EnsureProjectedArtifactKey(k)),
        EngineKey::EnsureTransitiveSetProjectionKey(k) => Some(
            NodeKey::EnsureTransitiveSetProjectionKey(k),
        ),
        EngineKey::DeferredCompute(k) => Some(NodeKey::DeferredCompute(k)),
        EngineKey::DeferredResolve(k) => Some(NodeKey::DeferredResolve(k)),
        EngineKey::ConfiguredTargetNodeKey(k) => Some(NodeKey::ConfiguredTargetNodeKey(k)),
        EngineKey::InterpreterResultsKey(k) => Some(NodeKey::InterpreterResultsKey(k)),
        EngineKey::Unrecognized => None,
    }
}

/// A node key that the engine can report, that is, anything but a materialization.
pub open spec fn is_engine_node(key: NodeKey) -> bool {
    !(key is Materialization)
}

impl NodeKey {
    /// The boundary filter: recognized engine keys become nodes, all others are dropped.
    pub fn from_engine(key: &EngineKey) -> (r: Option<NodeKey>)
        ensures
            r == spec_from_engine(*key),
            r matches Some(k) ==> is_engine_node(k),
    {
        match key {
            EngineKey::BuildKey(k) => Some(NodeKey::BuildKey(*k)),
            EngineKey::AnalysisKey(k) => Some(NodeKey::AnalysisKey(*k)),
            EngineKey::EnsureProjectedArtifactKey(k) => Some(
                NodeKey::EnsureProjectedArtifactKey(*k),
            ),
            EngineKey::EnsureTransitiveSetProjectionKey(k) => Some(
                NodeKey::EnsureTransitiveSetProjectionKey(*k),
            ),
            EngineKey::DeferredCompute(k) => Some(NodeKey::DeferredCompute(*k)),
            EngineKey::DeferredResolve(k) => Some(NodeKey::DeferredResolve(*k)),
            EngineKey::ConfiguredTargetNodeKey(k) => Some(NodeKey::ConfiguredTargetNodeKey(*k)),
            EngineKey::InterpreterResultsKey(k) => Some(NodeKey::InterpreterResultsKey(*k)),
            EngineKey::Unrecognized => None,
        }
    }
}

/// Time spent on a node, in microseconds: on the node's own work, and in all.
#[derive(Debug, Clone, Copy, PartialEq, Eq, Structural)]
pub struct NodeDuration {
    pub user: u64,
    pub total: u64,
}

impl NodeDuration {
    pub fn zero() -> (r: Self)
        ensures
            r == (NodeDuration { user: 0, total: 0 }),
    {
        NodeDuration { user: 0, total: 0 }
    }

    /// The duration that counts towards the critical path: the total one.
    pub open spec fn spec_critical_path_duration(&self) -> u64 {
        self.total
    }

    pub fn critical_path_duration(&self) -> (r: u64)
        ensures
            r == self.spec_critical_path_duration(),
    {
        self.total
    }
}

/// Which critical-path backend a build uses.
#[derive(Debug, Clone, Copy, PartialEq, Eq, Structural)]
pub enum CriticalPathBackendName {
    LongestPathGraph,
    Default,
}

impl CriticalPathBackendName {
    /// The configuration name of the backend.
    pub fn name(&self) -> (r: &'static str)
        ensures
            r@ == (match self {
                CriticalPathBackendName::LongestPathGraph => "longest-path-graph"@,
                CriticalPathBackendName::Default => "default"@,
            }),
    {
        match self {
            CriticalPathBackendName::LongestPathGraph => "longest-path-graph",
            CriticalPathBackendName::Default => "default",
        }
    }

    /// The backend with configuration name `s`; any other name is an error.
    pub fn from_name(s: &str) -> (r: Option<Self>)
        ensures
            r == Some(CriticalPathBackendName::LongestPathGraph) <==> s@ == "longest-path-graph"@,
            r == Some(CriticalPathBackendName::Default) <==> s@ == "default"@,
            r is None <==> (s@ != "longest-path-graph"@ && s@ != "default"@),
    {
        let given = s.to_owned();
        let longest = "longest-path-graph".to_owned();
        let default = "default".to_owned();
        proof {
            reveal_strlit("longest-path-graph");
            reveal_strlit("default");
            assert("default"@.len() != "longest-path-graph"@.len());
        }
        if given == longest {
            Some(CriticalPathBackendName::LongestPathGraph)
        } else if given == default {
            Some(CriticalPathBackendName::Default)
        } else {
            None
        }
    }
}

} // verus!

//! What the build engine reports about each evaluated key, and how it becomes a graph node:
//! the boundary filter on keys, the per-kind activation payloads, and load enrichment.
use crate::node_key::{is_engine_node, spec_from_engine, EngineKey, NodeDuration, NodeKey};
use std::collections::HashMap;
use vstd::prelude::*;

verus! {

broadcast use vstd::std_specs::hash::group_hash_axioms;

/// What a package load found: the packages that its targets depend on, in order.
#[derive(Debug)]
pub struct LoadResult {
    pub dep_packages: Vec<u64>,
}

/// The payload the engine attaches to a key it evaluated.
#[derive(Debug)]
pub enum ActivationPayload {
    /// An action ran; its handle, its two durations and its spans.
    Action { action: u64, duration: NodeDuration, spans: Vec<u64> },
    /// A target was analysed.
    Analysis { duration: u64, spans: Vec<u64> },
    /// A package was loaded; the result is absent where the load failed.
    Load { duration: u64, result: Option<LoadResult>, spans: Vec<u64> },
    /// A payload of some other kind.
    Other,
}

/// Whether a key was evaluated, and with what payload.
#[derive(Debug)]
pub enum ActivationData {
    /// The key was cached or not run.
    Cached,
    Evaluated(ActivationPayload),
}

/// A key evaluation as the critical-path backends see it.
#[derive(Debug)]
pub struct Evaluation {
    pub key: NodeKey,
    /// Zero unless the activation reports otherwise.
    pub duration: NodeDuration,
    /// The recognized dependencies, in the order reported; repeats allowed.
    pub dep_keys: Vec<NodeKey>,
    pub spans: Vec<u64>,
    /// Present only for a `BuildKey`.
    pub action: Option<u64>,
    /// Present only for an `InterpreterResultsKey`.
    pub load_result: Option<LoadResult>,
}

/// The recognized keys of `s`, in order.
pub open spec fn recognized(s: Seq<EngineKey>) -> Seq<NodeKey>
    decreases s.len(),
{
    if s.len() == 0 {
        Seq::empty()
    } else {
        match spec_from_engine(s.last()) {
            Some(k) => recognized(s.drop_last()).push(k),
            None => recognized(s.drop_last()),
        }
    }
}

/// Nothing but recognized engine keys passes the boundary: every dependency kept is one of
/// the reported ones, made a node, and no dependency becomes a materialization.
pub proof fn lemma_boundary_closure(s: Seq<EngineKey>)
    ensures
        forall|i: int|
            0 <= i < recognized(s).len() ==> is_engine_node(#[trigger] recognized(s)[i]),
        forall|i: int|
            #![trigger recognized(s)[i]]
            0 <= i < recognized(s).len() ==> exists|j: int|
                0 <= j < s.len() && spec_from_engine(#[trigger] s[j]) == Some(recognized(s)[i]),
        recognized(s).len() <= s.len(),
    decreases s.len(),
{
    if s.len() > 0 {
        let r = s.drop_last();
        lemma_boundary_closure(r);
        assert forall|i: int| #![trigger recognized(r)[i]] 0 <= i < recognized(r).len() implies exists|j: int|
            0 <= j < s.len() && spec_from_engine(#[trigger] s[j]) == Some(recognized(r)[i]) by {
            let j = choose|j: int| 0 <= j < r.len() && spec_from_engine(#[trigger] r[j]) == Some(recognized(r)[i]);
            assert(s[j] == r[j]);
        }
        assert(spec_from_engine(s[s.len() - 1]) == spec_from_engine(s.last()));
    }
}

fn recognized_keys(deps: &Vec<EngineKey>) -> (r: Vec<NodeKey>)
    ensures
        r@ == recognized(deps@),
{
    let mut r: Vec<NodeKey> = Vec::new();
    let mut i: usize = 0;
    while i < deps.len()
        invariant
            i <= deps@.len(),
            r@ == recognized(deps@.subrange(0, i as int)),
        decreases deps@.len() - i,
    {
        assert(deps@.subrange(0, i + 1).drop_last() =~= deps@.subrange(0, i as int));
        match NodeKey::from_engine(&deps[i]) {
            Some(k) => r.push(k),
            None => {},
        }
        i = i + 1;
    }
    assert(deps@.subrange(0, deps@.len() as int) =~= deps@);
    r
}

/// The evaluation of a key the engine activated, or nothing for a key of a kind that is not
/// tracked. Unrecognized dependencies are dropped. An evaluated payload sets the duration and
/// spans; analysis and load payloads report one duration, used as both the user and the
/// total one. The action is kept only on a `BuildKey`, the load result only on an
/// `InterpreterResultsKey`.
pub fn key_activated(key: &EngineKey, deps: &Vec<EngineKey>, activation_data: ActivationData) -> (r:
    Option<Evaluation>)
    ensures
        r is None <==> spec_from_engine(*key) is None,
        r matches Some(e) ==> {
            &&& Some(e.key) == spec_from_engine(*key)
            &&& e.dep_keys@ == recognized(deps@)
            &&& match activation_data {
                ActivationData::Evaluated(ActivationPayload::Action { action, duration, spans }) => {
                    &&& e.duration == duration
                    &&& e.spans@ == spans@
                    &&& e.action == if e.key is BuildKey { Some(action) } else { None }
                    &&& e.load_result is None
                },
                ActivationData::Evaluated(ActivationPayload::Analysis { duration, spans }) => {
                    &&& e.duration == (NodeDuration { user: duration, total: duration })
                    &&& e.spans@ == spans@
                    &&& e.action is None
                    &&& e.load_result is None
                },
                ActivationData::Evaluated(ActivationPayload::Load { duration, result, spans }) => {
                    &&& e.duration == (NodeDuration { user: duration, total: duration })
                    &&& e.spans@ == spans@
                    &&& e.action is None
                    &&& e.load_result == if e.key is InterpreterResultsKey { result } else { None }
                },
                _ => {
                    &&& e.duration == (NodeDuration { user: 0, total: 0 })
                    &&& e.spans@ == Seq::<u64>::empty()
                    &&& e.action is None
                    &&& e.load_result is None
                },
            }
        },
{
    let key = match NodeKey::from_engine(key) {
        Some(k) => k,
        None => return None,
    };
    let mut e = Evaluation {
        key,
        duration: NodeDuration::zero(),
        dep_keys: recognized_keys(deps),
        spans: Vec::new(),
        action: None,
        load_result: None,
    };
    match activation_data {
        ActivationData::Evaluated(ActivationPayload::Action { action, duration, spans }) => {
            if let NodeKey::BuildKey(_) = key {
                e.action = Some(action);
            }
            e.duration = duration;
            e.spans = spans;
        },
        ActivationData::Evaluated(ActivationPayload::Analysis { duration, spans }) => {
            e.duration = NodeDuration { user: duration, total: duration };
            e.spans = spans;
        },
        ActivationData::Evaluated(ActivationPayload::Load { duration, result, spans }) => {
            e.duration = NodeDuration { user: duration, total: duration };
            if let NodeKey::InterpreterResultsKey(_) = key {
                e.load_result = result;
            }
            e.spans = spans;
        },
        _ => {},
    }
    Some(e)
}

/// The discovery map after package `pkg` loads and reaches the packages `deps`, in order:
/// each package other than `pkg` not yet in the map is mapped to `pkg`.
pub open spec fn record_load(m: Map<u64, u64>, pkg: u64, deps: Seq<u64>) -> Map<u64, u64>
    decreases deps.len(),
{
    if deps.len() == 0 {
        m
    } else {
        let before = record_load(m, pkg, deps.drop_last());
        let d = deps.last();
        if d != pkg && !before.contains_key(d) {
            before.insert(d, pkg)
        } else {
            before
        }
    }
}

/// The first package that reached a package stays its discoverer: entries already in the
/// map keep their value, each other package reached (other than the loaded one) maps to the
/// loaded one, and nothing else enters the map.
pub proof fn lemma_first_writer_wins(m: Map<u64, u64>, pkg: u64, deps: Seq<u64>)
    ensures
        forall|d: u64|
            #![trigger record_load(m, pkg, deps).contains_key(d)]
            m.contains_key(d) ==> record_load(m, pkg, deps).contains_key(d) && record_load(
                m,
                pkg,
                deps,
            )[d] == m[d],
        forall|d: u64|
            #![trigger record_load(m, pkg, deps).contains_key(d)]
            !m.contains_key(d) && d != pkg && deps.contains(d) ==> record_load(
                m,
                pkg,
                deps,
            ).contains_key(d) && record_load(m, pkg, deps)[d] == pkg,
        forall|d: u64|
            #![trigger record_load(m, pkg, deps).contains_key(d)]
            !m.contains_key(d) && !(d != pkg && deps.contains(d)) ==> !record_load(
                m,
                pkg,
                deps,
            ).contains_key(d),
    decreases deps.len(),
{
    if deps.len() > 0 {
        let r = deps.drop_last();
        lemma_first_writer_wins(m, pkg, r);
        assert forall|d: u64| deps.contains(d) && d != deps.last() implies r.contains(d) by {
            let i = choose|i: int| 0 <= i < deps.len() && deps[i] == d;
            assert(r[i] == d);
        }
        assert forall|d: u64| r.contains(d) implies deps.contains(d) by {
            let i = choose|i: int| 0 <= i < r.len() && r[i] == d;
            assert(deps[i] == d);
        }
        assert(deps[deps.len() - 1] == deps.last());
        let before = record_load(m, pkg, r);
        let after = record_load(m, pkg, deps);
        assert forall|d: u64| m.contains_key(d) implies #[trigger] after.contains_key(d)
            && after[d] == m[d] by {
            assert(before.contains_key(d));
        }
        assert forall|d: u64| !m.contains_key(d) && d != pkg && deps.contains(d) implies
            #[trigger] after.contains_key(d) && after[d] == pkg by {
            if before.contains_key(d) {
            } else {
                if r.contains(d) {
                }
            }
        }
        assert forall|d: u64| !m.contains_key(d) && !(d != pkg && deps.contains(d)) implies
            !#[trigger] after.contains_key(d) by {
            if before.contains_key(d) {
            }
            assert(!deps.contains(d) || d == pkg);
            if d != pkg {
                assert(!r.contains(d));
            }
        }
    }
}

/// No package was discovered by its own load.
pub open spec fn no_self_edges(m: Map<u64, u64>) -> bool {
    forall|k: u64| #[trigger] m.contains_key(k) ==> m[k] != k
}

pub proof fn lemma_record_load_no_self_edges(m: Map<u64, u64>, pkg: u64, deps: Seq<u64>)
    requires
        no_self_edges(m),
    ensures
        no_self_edges(record_load(m, pkg, deps)),
    decreases deps.len(),
{
    if deps.len() > 0 {
        lemma_record_load_no_self_edges(m, pkg, deps.drop_last());
    }
}

/// The discovery map after a sequence of loads, each a package and the packages it reached.
pub open spec fn record_loads(loads: Seq<(u64, Seq<u64>)>) -> Map<u64, u64>
    decreases loads.len(),
{
    if loads.len() == 0 {
        Map::empty()
    } else {
        record_load(record_loads(loads.drop_last()), loads.last().0, loads.last().1)
    }
}

/// Whether load `i` lists package `d` as reached, `d` being another package.
pub open spec fn lists(loads: Seq<(u64, Seq<u64>)>, i: int, d: u64) -> bool {
    loads[i].1.contains(d) && d != loads[i].0
}

/// After any sequence of loads, a package is mapped exactly when some load listed it, and
/// then to the package of the first load that did.
pub proof fn lemma_first_load_wins(loads: Seq<(u64, Seq<u64>)>)
    ensures
        forall|d: u64|
            #![trigger record_loads(loads).contains_key(d)]
            record_loads(loads).contains_key(d) <==> exists|i: int|
                0 <= i < loads.len() && #[trigger] lists(loads, i, d),
        forall|d: u64, i: int|
            0 <= i < loads.len() && #[trigger] lists(loads, i, d) && (forall|j: int|
                0 <= j < i ==> !#[trigger] lists(loads, j, d)) ==> record_loads(loads)[d]
                == loads[i].0,
    decreases loads.len(),
{
    if loads.len() > 0 {
        let r = loads.drop_last();
        let last = loads.len() - 1;
        lemma_first_load_wins(r);
        lemma_first_writer_wins(record_loads(r), loads.last().0, loads.last().1);
        assert forall|j: int, d: u64| 0 <= j < r.len() implies lists(r, j, d) == #[trigger] lists(
            loads,
            j,
            d,
        ) by {}
        assert forall|d: u64|
            record_loads(loads).contains_key(d) <==> exists|i: int|
                0 <= i < loads.len() && #[trigger] lists(loads, i, d) by {
            if record_loads(loads).contains_key(d) && !record_loads(r).contains_key(d) {
                assert(lists(loads, last, d));
            }
            if record_loads(r).contains_key(d) {
                let i = choose|i: int| 0 <= i < r.len() && #[trigger] lists(r, i, d);
                assert(lists(loads, i, d));
            }
            if exists|i: int| 0 <= i < loads.len() && #[trigger] lists(loads, i, d) {
                let i = choose|i: int| 0 <= i < loads.len() && #[trigger] lists(loads, i, d);
                if i < last {
                    assert(lists(r, i, d));
                }
            }
        }
        assert forall|d: u64, i: int|
            0 <= i < loads.len() && #[trigger] lists(loads, i, d) && (forall|j: int|
                0 <= j < i ==> !#[trigger] lists(loads, j, d)) implies record_loads(loads)[d]
            == loads[i].0 by {
            let m = record_loads(r);
            let after = record_load(m, loads.last().0, loads.last().1);
            assert(record_loads(loads) == after);
            if i < last {
                assert(lists(r, i, d));
                assert forall|j: int| 0 <= j < i implies !#[trigger] lists(r, j, d) by {
                    assert(!lists(loads, j, d));
                }
                assert(m.contains_key(d));
                assert(m[d] == r[i].0);
                assert(after.contains_key(d));
            } else {
                if m.contains_key(d) {
                    let k = choose|k: int| 0 <= k < r.len() && #[trigger] lists(r, k, d);
                    assert(lists(loads, k, d));
                }
                assert(after.contains_key(d));
            }
        }
    }
}

/// Which package load first reached each package.
pub struct LoadEnricher {
    first_edge_to_load: HashMap<u64, u64>,
    /// Each load recorded so far: its package and the packages it reached.
    loads: Ghost<Seq<(u64, Seq<u64>)>>,
}

impl LoadEnricher {
    pub closed spec fn view(&self) -> Map<u64, u64> {
        self.first_edge_to_load@
    }

    /// The loads recorded so far, in order.
    pub closed spec fn history(&self) -> Seq<(u64, Seq<u64>)> {
        self.loads@
    }

    pub fn new() -> (r: Self)
        ensures
            r@ == Map::<u64, u64>::empty(),
            no_self_edges(r@),
            r.history() == Seq::<(u64, Seq<u64>)>::empty(),
            r@ == record_loads(r.history()),
    {
        LoadEnricher { first_edge_to_load: HashMap::new(), loads: Ghost(Seq::empty()) }
    }

    /// The package load that first reached `pkg`, if any.
    pub fn first_edge_to_load(&self, pkg: u64) -> (r: Option<u64>)
        ensures
            r == if self@.contains_key(pkg) {
                Some(self@[pkg])
            } else {
                None
            },
    {
        match self.first_edge_to_load.get(&pkg) {
            Some(p) => Some(*p),
            None => None,
        }
    }

    /// Records what a load of `pkg` reached, and, where an earlier load reached `pkg`, adds a
    /// dependency on the load of that package to the evaluation.
    pub fn enrich_load(&mut self, evaluation: &mut Evaluation)
        requires
            no_self_edges(old(self)@),
        ensures
            no_self_edges(final(self)@),
            final(self).history() == match (old(evaluation).key, &old(evaluation).load_result) {
                (NodeKey::InterpreterResultsKey(pkg), Some(result)) => old(self).history().push(
                    (pkg, result.dep_packages@),
                ),
                _ => old(self).history(),
            },
            old(self)@ == record_loads(old(self).history()) ==> final(self)@ == record_loads(
                final(self).history(),
            ),
            final(self)@ == match (old(evaluation).key, &old(evaluation).load_result) {
                (NodeKey::InterpreterResultsKey(pkg), Some(result)) => record_load(
                    old(self)@,
                    pkg,
                    result.dep_packages@,
                ),
                _ => old(self)@,
            },
            final(evaluation).key == old(evaluation).key,
            final(evaluation).duration == old(evaluation).duration,
            final(evaluation).spans == old(evaluation).spans,
            final(evaluation).action == old(evaluation).action,
            final(evaluation).load_result == old(evaluation).load_result,
            final(evaluation).dep_keys@ == match old(evaluation).key {
                NodeKey::InterpreterResultsKey(pkg) => if final(self)@.contains_key(pkg) {
                    old(evaluation).dep_keys@.push(NodeKey::InterpreterResultsKey(final(self)@[pkg]))
                } else {
                    old(evaluation).dep_keys@
                },
                _ => old(evaluation).dep_keys@,
            },
    {
        let pkg = match evaluation.key {
            NodeKey::InterpreterResultsKey(pkg) => pkg,
            _ => return ,
        };
        if let Some(result) = &evaluation.load_result {
            let deps = &result.dep_packages;
            let ghost m0 = self@;
            let mut i: usize = 0;
            while i < deps.len()
                invariant
                    i <= deps@.len(),
                    self@ == record_load(m0, pkg, deps@.subrange(0, i as int)),
                    self.loads@ == old(self).loads@,
                    m0 == old(self)@,
                decreases deps@.len() - i,
            {
                assert(deps@.subrange(0, i + 1).drop_last() =~= deps@.subrange(0, i as int));
                let d = deps[i];
                if d != pkg && !self.first_edge_to_load.contains_key(&d) {
                    self.first_edge_to_load.insert(d, pkg);
                }
                i = i + 1;
            }
            assert(deps@.subrange(0, deps@.len() as int) =~= deps@);
            proof {
                lemma_record_load_no_self_edges(m0, pkg, deps@);
                let h = self.loads@.push((pkg, deps@));
                assert(h.drop_last() =~= self.loads@);
            }
            self.loads = Ghost(self.loads@.push((pkg, deps@)));
        }
        if let Some(first) = self.first_edge_to_load(pkg) {
            evaluation.dep_keys.push(NodeKey::InterpreterResultsKey(first));
        }
    }
}

} // verus!

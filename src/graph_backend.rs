//! The batch backend: the whole graph is collected first, then its longest path is computed
//! together with how much each vertex of that path costs it.
use crate::backend::{
    position, unique, unique_keys, BuildInfo, CriticalPathEntry, KeyIndex, NodeData,
};
use crate::critical_path::{saturating_add, saturating_sub};
use crate::longest_paths::{cost, critical_path_potentials, graph_of, is_critical_path, is_longest};
use crate::topo::{is_topological, renumber, renumbered, reordered, topological_order};
use crate::node_key::{NodeDuration, NodeKey};
use vstd::prelude::*;

verus! {

/// The most vertices a graph can hold.
pub const MAX_VERTICES: usize = 4294967295;

/// An analysis node and the artifacts that became wanted once it finished.
#[derive(Debug)]
pub struct VisibilityEdge {
    pub node: NodeKey,
    pub makes_visible: Vec<NodeKey>,
}

/// Why the graph backend could not produce a critical path.
#[derive(Debug, Clone, Copy, PartialEq, Eq, Structural)]
pub enum GraphError {
    /// More vertices were pushed than a graph can hold.
    Overflow,
    /// The graph has a cycle, so it has no longest path.
    Cycle,
}

/// Kinds of node that produce artifacts, through which visibility spreads.
pub open spec fn produces_artifacts(k: NodeKey) -> bool {
    k is BuildKey || k is EnsureTransitiveSetProjectionKey || k is EnsureProjectedArtifactKey
}

/// The number of vertices that carry no label.
pub open spec fn unlabeled(s: Seq<Option<usize>>) -> nat
    decreases s.len(),
{
    if s.len() == 0 {
        0
    } else {
        unlabeled(s.drop_last()) + if s.last() is None {
            1nat
        } else {
            0nat
        }
    }
}

proof fn lemma_label_one(s: Seq<Option<usize>>, i: int, a: usize)
    requires
        0 <= i < s.len(),
        s[i] is None,
    ensures
        unlabeled(s.update(i, Some(a))) + 1 == unlabeled(s),
    decreases s.len(),
{
    let t = s.update(i, Some(a));
    if i < s.len() - 1 {
        assert(t.drop_last() =~= s.drop_last().update(i, Some(a)));
        lemma_label_one(s.drop_last(), i, a);
    } else {
        assert(t.drop_last() =~= s.drop_last());
    }
}

/// The vertices among `ds`, as indices into `keys`, in order.
pub open spec fn resolve(keys: Seq<NodeKey>, ds: Seq<NodeKey>) -> Seq<usize>
    decreases ds.len(),
{
    if ds.len() == 0 {
        Seq::empty()
    } else {
        match position(keys, ds.last()) {
            Some(i) => resolve(keys, ds.drop_last()).push(i),
            None => resolve(keys, ds.drop_last()),
        }
    }
}

/// Longest paths with potentials over a graph collected in full.
pub struct LongestPathGraphBackend {
    keys: KeyIndex,
    data: Vec<NodeData>,
    deps: Vec<Vec<NodeKey>>,
    top_level_analysis: Vec<VisibilityEdge>,
    duplicate_keys: u64,
    overflowed: bool,
}

/// The durations that count towards the critical path.
pub open spec fn durations_of(data: Seq<NodeData>) -> Seq<u64> {
    data.map_values(|n: NodeData| n.duration.total)
}

/// The number of edges of `g`, saturating.
pub open spec fn edge_count(g: Seq<Seq<usize>>) -> u64
    decreases g.len(),
{
    if g.len() == 0 {
        0
    } else {
        saturating_add(edge_count(g.drop_last()), g.last().len() as u64)
    }
}

fn is_artifact_producer(k: NodeKey) -> (r: bool)
    ensures
        r == produces_artifacts(k),
{
    match k {
        NodeKey::BuildKey(_) | NodeKey::EnsureTransitiveSetProjectionKey(_)
        | NodeKey::EnsureProjectedArtifactKey(_) => true,
        _ => false,
    }
}

/// Gives each labeled vertex one more dependency: its label.
pub fn add_edges(edges: &mut Vec<Vec<usize>>, labels: &Vec<Option<usize>>)
    requires
        old(edges)@.len() == labels@.len(),
    ensures
        final(edges)@.len() == old(edges)@.len(),
        forall|v: int|
            0 <= v < labels@.len() ==> #[trigger] final(edges)@[v]@ == match labels@[v] {
                Some(a) => old(edges)@[v]@.push(a),
                None => old(edges)@[v]@,
            },
{
    let ghost pre = edges@;
    let mut v: usize = 0;
    while v < labels.len()
        invariant
            edges@.len() == pre.len(),
            pre.len() == labels@.len(),
            v <= labels@.len(),
            forall|w: int|
                0 <= w < v ==> #[trigger] edges@[w]@ == match labels@[w] {
                    Some(a) => pre[w]@.push(a),
                    None => pre[w]@,
                },
            forall|w: int| v <= w < labels@.len() ==> #[trigger] edges@[w] == pre[w],
        decreases labels@.len() - v,
    {
        if let Some(a) = labels[v] {
            let mut es = edges[v].clone();
            es.push(a);
            edges.set(v, es);
        }
        v = v + 1;
    }
}

fn count_edges(edges: &Vec<Vec<usize>>) -> (r: u64)
    ensures
        r == edge_count(graph_of(edges@)),
{
    let mut r: u64 = 0;
    let mut v: usize = 0;
    while v < edges.len()
        invariant
            v <= edges@.len(),
            r == edge_count(graph_of(edges@.subrange(0, v as int))),
        decreases edges@.len() - v,
    {
        assert(graph_of(edges@.subrange(0, v + 1)).drop_last() =~= graph_of(
            edges@.subrange(0, v as int),
        ));
        r = r.saturating_add(edges[v].len() as u64);
        v = v + 1;
    }
    assert(edges@.subrange(0, edges@.len() as int) =~= edges@);
    r
}

fn resolve_deps(keys: &KeyIndex, ds: &Vec<NodeKey>) -> (r: Vec<usize>)
    requires
        keys.wf(),
    ensures
        r@ == resolve(keys@, ds@),
        forall|k: int| 0 <= k < r@.len() ==> #[trigger] r@[k] < keys@.len(),
{
    let mut r: Vec<usize> = Vec::new();
    let mut i: usize = 0;
    while i < ds.len()
        invariant
            keys.wf(),
            i <= ds@.len(),
            r@ == resolve(keys@, ds@.subrange(0, i as int)),
            forall|k: int| 0 <= k < r@.len() ==> #[trigger] r@[k] < keys@.len(),
        decreases ds@.len() - i,
    {
        assert(ds@.subrange(0, i + 1).drop_last() =~= ds@.subrange(0, i as int));
        match keys.find(ds[i]) {
            Some(v) => r.push(v),
            None => {},
        }
        i = i + 1;
    }
    assert(ds@.subrange(0, ds@.len() as int) =~= ds@);
    r
}

impl LongestPathGraphBackend {
    pub closed spec fn wf(&self) -> bool {
        &&& self.keys.wf()
        &&& self.keys@.no_duplicates()
        &&& self.keys@.len() == self.data@.len()
        &&& self.keys@.len() == self.deps@.len()
        &&& self.keys@.len() <= MAX_VERTICES
    }

    /// The vertices, in the order they were pushed.
    pub closed spec fn vertices(&self) -> Seq<NodeKey> {
        self.keys@
    }

    /// The payload of each vertex.
    pub closed spec fn vertex_data(&self) -> Seq<NodeData> {
        self.data@
    }

    /// The distinct dependencies each vertex was pushed with.
    pub closed spec fn vertex_deps(&self) -> Seq<Seq<NodeKey>> {
        self.deps@.map_values(|ds: Vec<NodeKey>| ds@)
    }

    /// The visibility edges recorded, in order.
    pub closed spec fn visibility(&self) -> Seq<(NodeKey, Seq<NodeKey>)> {
        self.top_level_analysis@.map_values(|e: VisibilityEdge| (e.node, e.makes_visible@))
    }

    /// How many pushes repeated a key, each a soft error.
    pub closed spec fn duplicates(&self) -> u64 {
        self.duplicate_keys
    }

    /// Whether the graph overflowed, after which nothing more is recorded.
    pub closed spec fn poisoned(&self) -> bool {
        self.overflowed
    }

    /// `next` is `self` once `key` was pushed with these arguments. A key pushed before is
    /// a soft error and changes no vertex; past the capacity the backend is poisoned; once
    /// poisoned, nothing changes.
    pub open spec fn after_process(
        &self,
        next: &LongestPathGraphBackend,
        key: NodeKey,
        action: Option<u64>,
        duration: NodeDuration,
        dep_keys: Seq<NodeKey>,
        span_ids: Seq<u64>,
    ) -> bool {
        &&& next.visibility() == self.visibility()
        &&& self.poisoned() ==> *next == *self
        &&& !self.poisoned() && self.vertices().contains(key) ==> {
            &&& next.vertices() == self.vertices()
            &&& next.vertex_data() == self.vertex_data()
            &&& next.vertex_deps() == self.vertex_deps()
            &&& next.duplicates() == saturating_add(self.duplicates(), 1)
            &&& !next.poisoned()
        }
        &&& !self.poisoned() && !self.vertices().contains(key) ==> {
            &&& next.duplicates() == self.duplicates()
            &&& if self.vertices().len() < MAX_VERTICES {
                &&& next.vertices() == self.vertices().push(key)
                &&& next.vertex_data().len() == self.vertex_data().len() + 1
                &&& next.vertex_data().drop_last() == self.vertex_data()
                &&& next.vertex_data().last().action == action
                &&& next.vertex_data().last().duration == duration
                &&& next.vertex_data().last().span_ids@ == span_ids
                &&& next.vertex_deps() == self.vertex_deps().push(unique(dep_keys))
                &&& !next.poisoned()
            } else {
                &&& next.vertices() == self.vertices()
                &&& next.vertex_data() == self.vertex_data()
                &&& next.vertex_deps() == self.vertex_deps()
                &&& next.poisoned()
            }
        }
    }

    pub fn new() -> (r: Self)
        ensures
            r.wf(),
            r.vertices() == Seq::<NodeKey>::empty(),
            r.visibility() == Seq::<(NodeKey, Seq<NodeKey>)>::empty(),
            r.duplicates() == 0,
            !r.poisoned(),
    {
        let r = LongestPathGraphBackend {
            keys: KeyIndex::new(),
            data: Vec::new(),
            deps: Vec::new(),
            top_level_analysis: Vec::new(),
            duplicate_keys: 0,
            overflowed: false,
        };
        assert(r.visibility() =~= Seq::<(NodeKey, Seq<NodeKey>)>::empty());
        r
    }

    /// Adds `key` as a vertex depending on `dep_keys`. A key pushed before is a soft error and
    /// is dropped; a vertex past the capacity poisons the backend; once poisoned, nothing is
    /// recorded.
    pub fn process_node(
        &mut self,
        key: NodeKey,
        action: Option<u64>,
        duration: NodeDuration,
        dep_keys: Vec<NodeKey>,
        span_ids: Vec<u64>,
    )
        requires
            old(self).wf(),
        ensures
            final(self).wf(),
            old(self).after_process(&*final(self), key, action, duration, dep_keys@, span_ids@),
    {
        if self.overflowed {
            return ;
        }
        if self.keys.find(key).is_some() {
            self.duplicate_keys = self.duplicate_keys.saturating_add(1);
            return ;
        }
        if self.keys.len() >= MAX_VERTICES {
            self.overflowed = true;
            return ;
        }
        let ghost pre = *self;
        let ghost spans = span_ids@;
        let deps = unique_keys(&dep_keys);
        self.keys.push(key);
        proof {
            self.keys.lemma_distinct();
        }
        self.data.push(NodeData { action, duration, span_ids });
        self.deps.push(deps);
        proof {
            assert forall|j: int, l: int|
                0 <= j < l < self.keys@.len() implies self.keys@[j] != self.keys@[l] by {
                if l == self.keys@.len() - 1 {
                    assert(pre.keys@.contains(self.keys@[j]));
                }
            }
            assert(self.vertex_deps() =~= pre.vertex_deps().push(unique(dep_keys@)));
            assert(self.data@.drop_last() =~= pre.data@);
            assert(self.data@.last().span_ids@ == spans);
        }
    }

    /// How many pushes repeated a key, to be reported as soft errors.
    pub fn duplicate_keys(&self) -> (r: u64)
        ensures
            r == self.duplicates(),
    {
        self.duplicate_keys
    }

    /// Records that the artifacts `artifacts` were wanted once `analysis` finished.
    pub fn process_top_level_target(&mut self, analysis: NodeKey, artifacts: Vec<NodeKey>)
        requires
            old(self).wf(),
        ensures
            final(self).wf(),
            final(self).vertices() == old(self).vertices(),
            final(self).vertex_data() == old(self).vertex_data(),
            final(self).vertex_deps() == old(self).vertex_deps(),
            final(self).duplicates() == old(self).duplicates(),
            final(self).poisoned() == old(self).poisoned(),
            final(self).visibility() == old(self).visibility().push((analysis, artifacts@)),
    {
        let ghost pre = *self;
        self.top_level_analysis.push(VisibilityEdge { node: analysis, makes_visible: artifacts });
        assert(self.visibility() =~= pre.visibility().push((analysis, artifacts@)));
    }
}


impl LongestPathGraphBackend {
    /// The dependency edges between vertices; dependencies that never became vertices drop.
    pub open spec fn resolved(&self) -> Seq<Seq<usize>> {
        Seq::new(
            self.vertices().len(),
            |v: int| resolve(self.vertices(), self.vertex_deps()[v]),
        )
    }

    /// `p` is a path of the resolved graph that passes only through vertices that produce
    /// artifacts (its last vertex aside).
    pub open spec fn is_artifact_path(&self, p: Seq<usize>) -> bool {
        &&& p.len() > 0
        &&& forall|i: int| 0 <= i < p.len() ==> #[trigger] p[i] < self.vertices().len()
        &&& forall|i: int|
            0 <= i < p.len() - 1 ==> produces_artifacts(self.vertices()[#[trigger] p[i] as int])
                && self.resolved()[p[i] as int].contains(p[i + 1])
    }

    /// `to` is reached from `from` through vertices that produce artifacts.
    pub open spec fn reaches(&self, from: usize, to: usize) -> bool {
        exists|p: Seq<usize>| #[trigger] self.is_artifact_path(p) && p[0] == from && p.last() == to
    }

    /// The `m`-th artifact of the `j`-th visibility edge, whose analysis is vertex `a`, is a
    /// vertex from which `v` is reached.
    pub open spec fn visible_via(&self, j: int, m: int, a: usize, v: usize) -> bool {
        &&& 0 <= j < self.visibility().len()
        &&& 0 <= m < self.visibility()[j].1.len()
        &&& position(self.vertices(), self.visibility()[j].0) == Some(a)
        &&& match position(self.vertices(), self.visibility()[j].1[m]) {
            Some(s) => self.reaches(s, v),
            None => false,
        }
    }

    /// Vertex `v` carries the label `a`: the first visibility edge that makes an artifact
    /// visible from which `v` is reached has analysis `a`.
    pub open spec fn visible_label(&self, a: usize, v: usize) -> bool {
        exists|j: int, m: int|
            #[trigger] self.visible_via(j, m, a, v) && forall|j2: int, m2: int, a2: usize|
                j2 < j ==> !#[trigger] self.visible_via(j2, m2, a2, v)
    }

    /// Every dependency of a labeled vertex is labeled, produces no artifacts, or waits in
    /// `queue`.
    pub open spec fn closed(&self, labels: Seq<Option<usize>>, queue: Seq<usize>) -> bool {
        forall|v: int, k: int|
            0 <= v < labels.len() && labels[v] is Some && 0 <= k < self.resolved()[v].len() ==> {
                let u = #[trigger] self.resolved()[v][k];
                labels[u as int] is Some || !produces_artifacts(self.vertices()[u as int])
                    || queue.contains(u)
            }
    }

    /// Every artifact made visible by a recorded analysis, both being vertices, is labeled
    /// unless it produces no artifacts.
    pub open spec fn starts_labeled(&self, labels: Seq<Option<usize>>, upto: int) -> bool {
        forall|j: int, m: int|
            0 <= j < upto && 0 <= m < self.visibility()[j].1.len() && position(
                self.vertices(),
                self.visibility()[j].0,
            ) is Some ==> match #[trigger] position(self.vertices(), self.visibility()[j].1[m]) {
                Some(s) => labels[s as int] is Some || !produces_artifacts(self.vertices()[s as int]),
                None => true,
            }
    }

    /// `g` is the resolved graph where vertices that produce artifacts gain one more
    /// dependency, on the vertex of a recorded analysis whose visible artifacts reach them;
    /// every vertex that produces artifacts and is so reached gains one. Without visibility
    /// edges, `g` is the resolved graph.
    pub open spec fn extends_resolved(&self, g: Seq<Seq<usize>>) -> bool {
        &&& g.len() == self.vertices().len()
        &&& forall|v: int|
            0 <= v < g.len() ==> #[trigger] g[v] == self.resolved()[v] || (
            produces_artifacts(self.vertices()[v]) && exists|a: usize|
                #[trigger] self.visible_label(a, v as usize) && g[v] == self.resolved()[v].push(a))
        &&& forall|j: int, m: int, a: usize, v: int|
            0 <= v < g.len() && produces_artifacts(self.vertices()[v]) && #[trigger] self.visible_via(
                j,
                m,
                a,
                v as usize,
            ) ==> g[v].len() == self.resolved()[v].len() + 1
    }

    /// Without top-level targets no synthetic edge is added: the graph is the resolved one.
    pub proof fn lemma_no_visibility(&self, g: Seq<Seq<usize>>)
        requires
            self.visibility().len() == 0,
            self.extends_resolved(g),
        ensures
            g == self.resolved(),
    {
        assert forall|v: int| 0 <= v < g.len() implies g[v] == self.resolved()[v] by {
            if g[v] != self.resolved()[v] {
                let a = choose|a: usize| #[trigger] self.visible_label(a, v as usize) && g[v]
                    == self.resolved()[v].push(a);
                let (j, m) = choose|j: int, m: int| #[trigger] self.visible_via(j, m, a, v as usize);
            }
        }
        assert(g =~= self.resolved());
    }

    /// In a closed labeling, what a labeled vertex reaches through vertices that produce
    /// artifacts is labeled, if it produces artifacts itself.
    proof fn lemma_closed_reach(&self, labels: Seq<Option<usize>>, p: Seq<usize>, i: int)
        requires
            self.wf(),
            labels.len() == self.vertices().len(),
            self.closed(labels, Seq::empty()),
            self.is_artifact_path(p),
            labels[p[0] as int] is Some,
            0 <= i < p.len(),
        ensures
            labels[p[i] as int] is Some || (i == p.len() - 1 && !produces_artifacts(
                self.vertices()[p[i] as int],
            )),
        decreases i,
    {
        if i > 0 {
            self.lemma_closed_reach(labels, p, i - 1);
            assert(produces_artifacts(self.vertices()[p[i - 1] as int]));
            let v = p[i - 1] as int;
            assert(self.resolved()[v].contains(p[i]));
            let k = choose|k: int| 0 <= k < self.resolved()[v].len() && self.resolved()[v][k] == p[i];
            assert(self.resolved()[v][k] == p[i]);
            if i < p.len() - 1 {
                assert(produces_artifacts(self.vertices()[p[i] as int]));
            }
        }
    }

    /// In a closed labeling whose first `upto` visibility edges have their artifacts labeled,
    /// every vertex producing artifacts that one of those reaches is labeled.
    proof fn lemma_reached_labeled(
        &self,
        labels: Seq<Option<usize>>,
        upto: int,
        j: int,
        m: int,
        a: usize,
        v: usize,
    )
        requires
            self.wf(),
            labels.len() == self.vertices().len(),
            self.closed(labels, Seq::empty()),
            self.starts_labeled(labels, upto),
            j < upto,
            self.visible_via(j, m, a, v),
            v < self.vertices().len(),
            produces_artifacts(self.vertices()[v as int]),
        ensures
            labels[v as int] is Some,
    {
        let st = position(self.vertices(), self.visibility()[j].1[m]).unwrap();
        let p = choose|p: Seq<usize>| #[trigger] self.is_artifact_path(p) && p[0] == st && p.last()
            == v;
        assert(match position(self.vertices(), self.visibility()[j].1[m]) {
            Some(s) => labels[s as int] is Some || !produces_artifacts(self.vertices()[s as int]),
            None => true,
        });
        if p.len() > 1 {
            assert(produces_artifacts(self.vertices()[p[0] as int]));
        }
        assert(labels[st as int] is Some);
        self.lemma_closed_reach(labels, p, p.len() - 1);
    }

    fn resolved_edges(&self) -> (r: Vec<Vec<usize>>)
        requires
            self.wf(),
        ensures
            r@.len() == self.keys@.len(),
            graph_of(r@) == self.resolved(),
            forall|v: int, k: int|
                0 <= v < r@.len() && 0 <= k < r@[v]@.len() ==> #[trigger] r@[v]@[k] < r@.len(),
    {
        let mut r: Vec<Vec<usize>> = Vec::new();
        let mut v: usize = 0;
        while v < self.deps.len()
            invariant
                self.wf(),
                v <= self.deps@.len(),
                r@.len() == v,
                forall|w: int|
                    0 <= w < v ==> #[trigger] r@[w]@ == resolve(self.keys@, self.deps@[w]@),
                forall|w: int, k: int|
                    0 <= w < v && 0 <= k < r@[w]@.len() ==> #[trigger] r@[w]@[k]
                        < self.keys@.len(),
            decreases self.deps@.len() - v,
        {
            let es = resolve_deps(&self.keys, &self.deps[v]);
            r.push(es);
            v = v + 1;
        }
        assert(graph_of(r@) =~= self.resolved());
        r
    }

    /// Labels with `analysis` every vertex that produces artifacts and is reached, through
    /// such vertices, from `start`, unless it is labeled already.
    fn label_from(
        &self,
        edges: &Vec<Vec<usize>>,
        labels: &mut Vec<Option<usize>>,
        start: usize,
        analysis: usize,
        visibility_index: Ghost<int>,
        artifact_index: Ghost<int>,
    )
        requires
            self.wf(),
            edges@.len() == self.keys@.len(),
            graph_of(edges@) == self.resolved(),
            old(labels)@.len() == self.keys@.len(),
            start < self.keys@.len(),
            analysis < self.keys@.len(),
            0 <= visibility_index@ < self.visibility().len(),
            0 <= artifact_index@ < self.visibility()[visibility_index@].1.len(),
            position(self.vertices(), self.visibility()[visibility_index@].0) == Some(analysis),
            position(self.vertices(), self.visibility()[visibility_index@].1[artifact_index@])
                == Some(start),
            self.closed(old(labels)@, Seq::empty()),
            forall|v: int, j2: int, m2: int, a2: usize|
                0 <= v < old(labels)@.len() && old(labels)@[v] is None && produces_artifacts(
                    self.vertices()[v],
                ) && j2 < visibility_index@ ==> !#[trigger] self.visible_via(j2, m2, a2, v as usize),
            forall|v: int, k: int|
                0 <= v < edges@.len() && 0 <= k < edges@[v]@.len() ==> #[trigger] edges@[v]@[k]
                    < edges@.len(),
            forall|v: int|
                0 <= v < old(labels)@.len() && #[trigger] old(labels)@[v] is Some ==> produces_artifacts(
                    self.keys@[v],
                ) && old(labels)@[v].unwrap() < self.keys@.len() && self.visible_label(
                    old(labels)@[v].unwrap(),
                    v as usize,
                ),
        ensures
            final(labels)@.len() == self.keys@.len(),
            self.closed(final(labels)@, Seq::empty()),
            final(labels)@[start as int] is Some || !produces_artifacts(self.vertices()[start as int]),
            forall|v: int| 0 <= v < old(labels)@.len() && #[trigger] old(labels)@[v] is Some ==> final(labels)@[v] is Some,
            forall|v: int|
                0 <= v < final(labels)@.len() && #[trigger] final(labels)@[v] is Some ==> produces_artifacts(
                    self.keys@[v],
                ) && final(labels)@[v].unwrap() < self.keys@.len() && self.visible_label(
                    final(labels)@[v].unwrap(),
                    v as usize,
                ),
    {
        let ghost j = visibility_index@;
        let ghost m = artifact_index@;
        let mut queue: Vec<usize> = Vec::new();
        queue.push(start);
        proof {
            let p = seq![start];
            assert(self.is_artifact_path(p));
            assert(queue@[0] == start);
            assert forall|u: usize| Seq::<usize>::empty().contains(u) implies queue@.contains(u) by {}
            assert(j == visibility_index@);
            assert forall|v: int, j2: int, m2: int, a2: usize|
                0 <= v < old(labels)@.len() && old(labels)@[v] is None && produces_artifacts(
                    self.vertices()[v],
                ) && j2 < j implies !#[trigger] self.visible_via(j2, m2, a2, v as usize) by {
                assert(j2 < visibility_index@);
            }
        }
        loop
            invariant
                self.wf(),
                edges@.len() == self.keys@.len(),
                graph_of(edges@) == self.resolved(),
                labels@.len() == self.keys@.len(),
                analysis < self.keys@.len(),
                0 <= j < self.visibility().len(),
                0 <= m < self.visibility()[j].1.len(),
                position(self.vertices(), self.visibility()[j].0) == Some(analysis),
                position(self.vertices(), self.visibility()[j].1[m]) == Some(start),
                forall|q: int| 0 <= q < queue@.len() ==> self.reaches(start, #[trigger] queue@[q]),
                self.closed(labels@, queue@),
                old(labels)@.len() == self.keys@.len(),
                forall|v: int, j2: int, m2: int, a2: usize|
                    0 <= v < old(labels)@.len() && old(labels)@[v] is None && produces_artifacts(
                        self.vertices()[v],
                    ) && j2 < j ==> !#[trigger] self.visible_via(
                        j2,
                        m2,
                        a2,
                        v as usize,
                    ),
                labels@[start as int] is Some || !produces_artifacts(self.vertices()[start as int])
                    || queue@.contains(start),
                forall|v: int| 0 <= v < old(labels)@.len() && #[trigger] old(labels)@[v] is Some ==> labels@[v] is Some,
                forall|v: int, k: int|
                    0 <= v < edges@.len() && 0 <= k < edges@[v]@.len() ==> #[trigger] edges@[v]@[k]
                        < edges@.len(),
                forall|v: int|
                    0 <= v < labels@.len() && #[trigger] labels@[v] is Some ==> produces_artifacts(
                        self.keys@[v],
                    ) && labels@[v].unwrap() < self.keys@.len() && self.visible_label(
                        labels@[v].unwrap(),
                        v as usize,
                    ),
                forall|q: int| 0 <= q < queue@.len() ==> #[trigger] queue@[q] < self.keys@.len(),
            ensures
                labels@.len() == self.keys@.len(),
                self.closed(labels@, Seq::empty()),
                labels@[start as int] is Some || !produces_artifacts(self.vertices()[start as int]),
                forall|v: int| 0 <= v < old(labels)@.len() && #[trigger] old(labels)@[v] is Some ==> labels@[v] is Some,
                forall|v: int|
                    0 <= v < labels@.len() && #[trigger] labels@[v] is Some ==> produces_artifacts(
                        self.keys@[v],
                    ) && labels@[v].unwrap() < self.keys@.len() && self.visible_label(
                        labels@[v].unwrap(),
                        v as usize,
                    ),
            decreases unlabeled(labels@), queue@.len(),
        {
            let ghost before = queue@;
            let i = match queue.pop() {
                Some(i) => i,
                None => {
                    proof {
                        assert(queue@ =~= Seq::<usize>::empty());
                    }
                    break;
                },
            };
            proof {
                assert(before == queue@.push(i));
                assert forall|u: usize| before.contains(u) && u != i implies queue@.contains(u) by {
                    let x = choose|x: int| 0 <= x < before.len() && before[x] == u;
                    assert(queue@[x] == u);
                }
                assert(queue@.len() < before.len());
            }
            if labels[i].is_some() {
                continue;
            }
            if !is_artifact_producer(self.keys.get(i)) {
                continue;
            }
            proof {
                lemma_label_one(labels@, i as int, analysis);
                assert(self.visible_via(j, m, analysis, i));
                assert(old(labels)@[i as int] is None);
                assert(self.visible_label(analysis, i));
            }
            let ghost unlabeled_before = labels@;
            labels.set(i, Some(analysis));
            proof {
                assert forall|v: int| 0 <= v < old(labels)@.len() && #[trigger] old(labels)@[v] is Some implies labels@[v] is Some by {
                    assert(old(labels)@.len() == labels@.len());
                    if v != i as int {
                        assert(labels@[v] == unlabeled_before[v]);
                    }
                }
                assert forall|v: int, k: int|
                    0 <= v < labels@.len() && labels@[v] is Some && v != i && 0 <= k < self.resolved()[v].len() implies {
                        let u = #[trigger] self.resolved()[v][k];
                        labels@[u as int] is Some || !produces_artifacts(self.vertices()[u as int])
                            || queue@.contains(u)
                    } by {
                    let u = self.resolved()[v][k];
                    assert(labels@[v] == unlabeled_before[v]);
                    if u as int != i {
                        assert(labels@[u as int] == unlabeled_before[u as int]);
                    }
                }
                if start != i {
                    assert(labels@[start as int] == unlabeled_before[start as int]);
                }
            }
            let es = &edges[i];
            let mut k: usize = 0;
            assert(self.resolved()[i as int] == es@);
            while k < es.len()
                invariant
                    edges@.len() == self.keys@.len(),
                    i < edges@.len(),
                    es == edges@[i as int],
                    self.resolved()[i as int] == es@,
                    self.reaches(start, i),
                    produces_artifacts(self.vertices()[i as int]),
                    labels@.len() == self.keys@.len(),
                    labels@[i as int] is Some,
                    labels@[start as int] is Some || !produces_artifacts(self.vertices()[start as int])
                        || queue@.contains(start),
                    forall|v: int, k: int|
                        0 <= v < labels@.len() && labels@[v] is Some && v != i && 0 <= k < self.resolved()[v].len() ==> {
                            let u = #[trigger] self.resolved()[v][k];
                            labels@[u as int] is Some || !produces_artifacts(self.vertices()[u as int])
                                || queue@.contains(u)
                        },
                    forall|x: int| 0 <= x < k ==> queue@.contains(#[trigger] es@[x]),
                    old(labels)@.len() == self.keys@.len(),
                    forall|v: int| 0 <= v < old(labels)@.len() && #[trigger] old(labels)@[v] is Some ==> labels@[v] is Some,
                    forall|q: int| 0 <= q < queue@.len() ==> self.reaches(start, #[trigger] queue@[q]),
                    forall|v: int, k: int|
                        0 <= v < edges@.len() && 0 <= k < edges@[v]@.len() ==> #[trigger] edges@[v]@[k]
                            < edges@.len(),
                    k <= es@.len(),
                    forall|q: int| 0 <= q < queue@.len() ==> #[trigger] queue@[q] < self.keys@.len(),
                decreases es@.len() - k,
            {
                proof {
                    let p = choose|p: Seq<usize>| #[trigger] self.is_artifact_path(p) && p[0] == start
                        && p.last() == i;
                    let p2 = p.push(es@[k as int]);
                    assert(es@.contains(es@[k as int]));
                    assert forall|x: int| 0 <= x < p2.len() - 1 implies produces_artifacts(
                        self.vertices()[#[trigger] p2[x] as int],
                    ) && self.resolved()[p2[x] as int].contains(p2[x + 1]) by {
                        if x < p.len() - 1 {
                            assert(p2[x] == p[x] && p2[x + 1] == p[x + 1]);
                        }
                    }
                    assert(self.is_artifact_path(p2));
                    assert(p2[0] == start);
                }
                let ghost qb = queue@;
                queue.push(es[k]);
                proof {
                    assert(queue@[qb.len() as int] == es@[k as int]);
                    assert forall|u: usize| qb.contains(u) implies queue@.contains(u) by {
                        let x = choose|x: int| 0 <= x < qb.len() && qb[x] == u;
                        assert(queue@[x] == u);
                    }
                }
                k = k + 1;
            }
            proof {
                assert forall|v: int, k: int|
                    0 <= v < labels@.len() && labels@[v] is Some && 0 <= k < self.resolved()[v].len() implies {
                        let u = #[trigger] self.resolved()[v][k];
                        labels@[u as int] is Some || !produces_artifacts(self.vertices()[u as int])
                            || queue@.contains(u)
                    } by {
                    if v == i {
                        assert(self.resolved()[v][k] == es@[k]);
                    }
                }
            }
        }
    }

    /// For each vertex, the first analysis whose visible artifacts reach it.
    fn first_analysis(&self, edges: &Vec<Vec<usize>>) -> (r: Vec<Option<usize>>)
        requires
            self.wf(),
            edges@.len() == self.keys@.len(),
            graph_of(edges@) == self.resolved(),
            forall|v: int, k: int|
                0 <= v < edges@.len() && 0 <= k < edges@[v]@.len() ==> #[trigger] edges@[v]@[k]
                    < edges@.len(),
        ensures
            r@.len() == self.keys@.len(),
            forall|v: int|
                0 <= v < r@.len() && #[trigger] r@[v] is Some ==> produces_artifacts(self.keys@[v])
                    && r@[v].unwrap() < self.keys@.len() && self.visible_label(r@[v].unwrap(), v as usize),
            self.closed(r@, Seq::empty()),
            self.starts_labeled(r@, self.visibility().len() as int),
    {
        let mut labels: Vec<Option<usize>> = Vec::new();
        let mut v: usize = 0;
        while v < self.keys.len()
            invariant
                v <= self.keys@.len(),
                labels@.len() == v,
                forall|w: int| 0 <= w < v ==> #[trigger] labels@[w] is None,
            decreases self.keys@.len() - v,
        {
            labels.push(None);
            v = v + 1;
        }
        let mut t: usize = 0;
        while t < self.top_level_analysis.len()
            invariant
                self.wf(),
                edges@.len() == self.keys@.len(),
                graph_of(edges@) == self.resolved(),
                labels@.len() == self.keys@.len(),
                forall|v: int, k: int|
                    0 <= v < edges@.len() && 0 <= k < edges@[v]@.len() ==> #[trigger] edges@[v]@[k]
                        < edges@.len(),
                forall|v: int|
                    0 <= v < labels@.len() && #[trigger] labels@[v] is Some ==> produces_artifacts(
                        self.keys@[v],
                    ) && labels@[v].unwrap() < self.keys@.len() && self.visible_label(
                        labels@[v].unwrap(),
                        v as usize,
                    ),
                t <= self.top_level_analysis@.len(),
                self.closed(labels@, Seq::empty()),
                self.starts_labeled(labels@, t as int),
                self.visibility().len() == self.top_level_analysis@.len(),
            decreases self.top_level_analysis@.len() - t,
        {
            let visibility = &self.top_level_analysis[t];
            if let Some(analysis) = self.keys.find(visibility.node) {
                proof {
                    assert(self.visibility()[t as int].0 == visibility.node);
                    assert(position(self.vertices(), self.visibility()[t as int].0) == Some(analysis));
                    assert(self.visibility()[t as int] == (visibility.node, visibility.makes_visible@));
                }
                let mut a: usize = 0;
                while a < visibility.makes_visible.len()
                    invariant
                        self.wf(),
                        edges@.len() == self.keys@.len(),
                        graph_of(edges@) == self.resolved(),
                        labels@.len() == self.keys@.len(),
                        analysis < self.keys@.len(),
                        forall|v: int, k: int|
                            0 <= v < edges@.len() && 0 <= k < edges@[v]@.len() ==> #[trigger] edges@[v]@[k]
                                < edges@.len(),
                        t < self.visibility().len(),
                        self.visibility()[t as int] == (visibility.node, visibility.makes_visible@),
                        self.closed(labels@, Seq::empty()),
                        self.starts_labeled(labels@, t as int),
                        forall|m: int|
                            0 <= m < a ==> match #[trigger] position(self.vertices(), self.visibility()[t as int].1[m]) {
                                Some(s) => labels@[s as int] is Some || !produces_artifacts(
                                    self.vertices()[s as int],
                                ),
                                None => true,
                            },
                        position(self.vertices(), self.visibility()[t as int].0) == Some(analysis),
                        forall|v: int|
                            0 <= v < labels@.len() && #[trigger] labels@[v] is Some ==> produces_artifacts(
                                self.keys@[v],
                            ) && labels@[v].unwrap() < self.keys@.len() && self.visible_label(
                                labels@[v].unwrap(),
                                v as usize,
                            ),
                        a <= visibility.makes_visible@.len(),
                    decreases visibility.makes_visible@.len() - a,
                {
                    let ghost before = labels@;
                    if let Some(artifact) = self.keys.find(visibility.makes_visible[a]) {
                        proof {
                            assert forall|v: int, j2: int, m2: int, a2: usize|
                                0 <= v < labels@.len() && labels@[v] is None && produces_artifacts(
                                    self.vertices()[v],
                                ) && j2 < t implies !#[trigger] self.visible_via(
                                    j2,
                                    m2,
                                    a2,
                                    v as usize,
                                ) by {
                                if self.visible_via(j2, m2, a2, v as usize) {
                                    self.lemma_reached_labeled(labels@, t as int, j2, m2, a2, v as usize);
                                }
                            }
                        }
                        self.label_from(
                            edges,
                            &mut labels,
                            artifact,
                            analysis,
                            Ghost(t as int),
                            Ghost(a as int),
                        );
                    }
                    proof {
                        assert(self.visibility()[t as int].1[a as int] == visibility.makes_visible@[a as int]);
                        assert forall|j: int, m: int|
                            0 <= j < t && 0 <= m < self.visibility()[j].1.len() && position(
                                self.vertices(),
                                self.visibility()[j].0,
                            ) is Some implies match #[trigger] position(self.vertices(), self.visibility()[j].1[m]) {
                                Some(s) => labels@[s as int] is Some || !produces_artifacts(self.vertices()[s as int]),
                                None => true,
                            } by {
                            if let Some(s) = position(self.vertices(), self.visibility()[j].1[m]) {
                                assert(before[s as int] is Some ==> labels@[s as int] is Some);
                            }
                        }
                        assert forall|m: int|
                            0 <= m < a + 1 implies match #[trigger] position(self.vertices(), self.visibility()[t as int].1[m]) {
                                Some(s) => labels@[s as int] is Some || !produces_artifacts(
                                    self.vertices()[s as int],
                                ),
                                None => true,
                            } by {
                            if let Some(s) = position(self.vertices(), self.visibility()[t as int].1[m]) {
                                assert(before[s as int] is Some ==> labels@[s as int] is Some);
                            }
                        }
                    }
                    a = a + 1;
                }
            }
            proof {
                assert forall|j: int, m: int|
                    0 <= j < t + 1 && 0 <= m < self.visibility()[j].1.len() && position(
                        self.vertices(),
                        self.visibility()[j].0,
                    ) is Some implies match #[trigger] position(self.vertices(), self.visibility()[j].1[m]) {
                        Some(s) => labels@[s as int] is Some || !produces_artifacts(self.vertices()[s as int]),
                        None => true,
                    } by {
                    if j == t {
                        assert(self.visibility()[t as int] == (visibility.node, visibility.makes_visible@));
                    }
                }
            }
            t = t + 1;
        }
        labels
    }
}

impl LongestPathGraphBackend {
    /// `info` is the outcome of the graph `g`, an extension of the resolved graph, taken in
    /// the topological order `ord` (vertex `ord[i]` numbered `i`, every edge kept): its
    /// longest path is `p`, and each entry is a vertex of `p` with its data and its potential
    /// improvement, the cost of the longest path less that once the vertex takes no time.
    pub open spec fn finished_as(
        &self,
        g: Seq<Seq<usize>>,
        ord: Seq<usize>,
        p: Seq<usize>,
        info: BuildInfo,
    ) -> bool {
        let g2 = renumbered(g, ord);
        let d2 = reordered(durations_of(self.vertex_data()), ord);
        &&& self.extends_resolved(g)
        &&& is_topological(g, ord)
        &&& info.num_nodes == self.vertices().len()
        &&& info.num_edges == edge_count(g)
        &&& info.critical_path@.len() == p.len()
        &&& forall|dist: Seq<u64>| #[trigger] is_longest(g2, d2, dist) ==> is_critical_path(g2, dist, p)
        &&& forall|i: int|
            0 <= i < p.len() ==> {
                &&& p[i] < ord.len()
                &&& (#[trigger] info.critical_path@[i]).key == self.vertices()[ord[p[i] as int] as int]
                &&& info.critical_path@[i].data.same(&self.vertex_data()[ord[p[i] as int] as int])
                &&& info.critical_path@[i].potential_improvement is Some
                &&& info.critical_path@[i].potential_improvement.unwrap()
                    <= info.critical_path@[i].data.duration.total
            }
        &&& forall|i: int, dist: Seq<u64>, zeroed: Seq<u64>|
            0 <= i < p.len() && is_longest(g2, d2, dist) && is_longest(g2, d2.update(p[i] as int, 0), zeroed)
                ==> #[trigger] info.critical_path@[i].potential_improvement == Some(
                saturating_sub(#[trigger] cost(dist), #[trigger] cost(zeroed)),
            )
    }

    /// `info` is the outcome of some extension of the resolved graph and its longest path.
    pub open spec fn finished(&self, info: BuildInfo) -> bool {
        exists|g: Seq<Seq<usize>>, ord: Seq<usize>, p: Seq<usize>| #[trigger] self.finished_as(g, ord, p, info)
    }

    /// The graph, once extended, has a cycle.
    pub open spec fn cyclic(&self) -> bool {
        exists|g: Seq<Seq<usize>>| #[trigger] self.extends_resolved(g) && forall|ord: Seq<usize>| !#[trigger] is_topological(g, ord)
    }

    /// The critical path with potential improvements. Before the longest path is computed,
    /// each vertex that produces artifacts gains a dependency on the first analysis whose
    /// visible artifacts reach it. Fails if the graph overflowed or has a cycle.
    pub fn finish(&self) -> (r: Result<BuildInfo, GraphError>)
        requires
            self.wf(),
        ensures
            r == Err::<BuildInfo, GraphError>(GraphError::Overflow) <==> self.poisoned(),
            r == Err::<BuildInfo, GraphError>(GraphError::Cycle) ==> self.cyclic(),
            r matches Ok(info) ==> self.finished(info),
    {
        if self.overflowed {
            return Err(GraphError::Overflow);
        }
        let mut edges = self.resolved_edges();
        let labels = self.first_analysis(&edges);
        let ghost resolved = edges@;
        add_edges(&mut edges, &labels);
        let ghost g = graph_of(edges@);
        proof {
            assert forall|v: int|
                0 <= v < g.len() implies #[trigger] g[v] == self.resolved()[v] || (produces_artifacts(
                self.vertices()[v],
            ) && exists|a: usize| a < g.len() && g[v] == self.resolved()[v].push(a)) by {
                assert(graph_of(resolved)[v] == self.resolved()[v]);
                if let Some(a) = labels@[v] {
                    assert(g[v] == self.resolved()[v].push(a));
                    assert(self.visible_label(a, v as usize));
                }
            }
            assert forall|j: int, m: int, a: usize, v: int|
                0 <= v < g.len() && produces_artifacts(self.vertices()[v]) && #[trigger] self.visible_via(
                    j,
                    m,
                    a,
                    v as usize,
                ) implies g[v].len() == self.resolved()[v].len() + 1 by {
                self.lemma_reached_labeled(labels@, self.visibility().len() as int, j, m, a, v as usize);
                assert(graph_of(resolved)[v] == self.resolved()[v]);
            }
        }
        let mut d: Vec<u64> = Vec::new();
        let mut v: usize = 0;
        while v < self.data.len()
            invariant
                self.wf(),
                g == graph_of(edges@),
                self.extends_resolved(g),
                v <= self.data@.len(),
                d@ == durations_of(self.data@).subrange(0, v as int),
            decreases self.data@.len() - v,
        {
            d.push(self.data[v].duration.total);
            v = v + 1;
            assert(d@ =~= durations_of(self.data@).subrange(0, v as int));
        }
        assert(d@ =~= durations_of(self.data@));
        proof {
            assert forall|v: int, k: int|
                0 <= v < edges@.len() && 0 <= k < edges@[v]@.len() implies #[trigger] edges@[v]@[k]
                    < edges@.len() by {
                assert(graph_of(resolved)[v] == self.resolved()[v]);
                assert(g[v] == edges@[v]@);
                if k < resolved[v]@.len() {
                    assert(edges@[v]@[k] == resolved[v]@[k]);
                }
            }
        }
        let ord = match topological_order(&edges) {
            Some(ord) => ord,
            None => {
                assert(self.extends_resolved(g));
                return Err(GraphError::Cycle);
            },
        };
        let ranked = renumber(&edges, &ord);
        let mut d2: Vec<u64> = Vec::new();
        let mut i: usize = 0;
        while i < ord.len()
            invariant
                is_topological(g, ord@),
                g == graph_of(edges@),
                d@.len() == g.len(),
                i <= ord@.len(),
                d2@ == reordered(d@, ord@).subrange(0, i as int),
            decreases ord@.len() - i,
        {
            d2.push(d[ord[i]]);
            i = i + 1;
            assert(d2@ =~= reordered(d@, ord@).subrange(0, i as int));
        }
        assert(d2@ =~= reordered(d@, ord@));
        let ghost g2 = graph_of(ranked@);
        assert(g2.len() == ranked@.len());
        assert(g2.len() == ord@.len());
        assert(d2@.len() == ord@.len());
        let (path, total, replacement) = critical_path_potentials(&ranked, &d2);
        let mut critical_path: Vec<CriticalPathEntry> = Vec::new();
        let mut i: usize = 0;
        while i < path.len()
            invariant
                self.wf(),
                g == graph_of(edges@),
                g2 == graph_of(ranked@),
                g2 == renumbered(g, ord@),
                is_topological(g, ord@),
                ord@.len() == self.keys@.len(),
                d@ == durations_of(self.data@),
                d2@ == reordered(d@, ord@),
                d2@.len() == ord@.len(),
                replacement@.len() == path@.len(),
                forall|j: int| 0 <= j < path@.len() ==> #[trigger] path@[j] < d2@.len(),
                forall|j: int|
                    0 <= j < path@.len() ==> #[trigger] replacement@[j] <= total && total
                        - replacement@[j] <= d2@[path@[j] as int],
                self.extends_resolved(g),
                forall|dist: Seq<u64>|
                    #[trigger] is_longest(g2, d2@, dist) ==> is_critical_path(g2, dist, path@) && total
                        == cost(dist),
                forall|j: int, dist: Seq<u64>|
                    0 <= j < path@.len() && is_longest(g2, d2@.update(path@[j] as int, 0), dist)
                        ==> #[trigger] replacement@[j] == #[trigger] cost(dist),
                i <= path@.len(),
                critical_path@.len() == i,
                forall|j: int|
                    0 <= j < i ==> {
                        &&& (#[trigger] critical_path@[j]).key == self.keys@[ord@[path@[j] as int] as int]
                        &&& critical_path@[j].data.same(&self.data@[ord@[path@[j] as int] as int])
                        &&& critical_path@[j].potential_improvement == Some(
                            saturating_sub(total, replacement@[j]),
                        )
                        &&& saturating_sub(total, replacement@[j]) <= critical_path@[j].data.duration.total
                    },
            decreases path@.len() - i,
        {
            let v = ord[path[i]];
            proof {
                assert(d2@[path@[i as int] as int] == d@[v as int]);
                assert(d@[v as int] == self.data@[v as int].duration.total);
            }
            critical_path.push(
                CriticalPathEntry {
                    key: self.keys.get(v),
                    data: self.data[v].duplicate(),
                    potential_improvement: Some(total.saturating_sub(replacement[i])),
                },
            );
            i = i + 1;
        }
        let num_edges = count_edges(&edges);
        let info = BuildInfo {
            critical_path,
            num_nodes: self.keys.len() as u64,
            num_edges,
        };
        proof {
            assert(self.extends_resolved(g));
            assert(info.num_edges == edge_count(g));
            assert(self.finished_as(g, ord@, path@, info));
            assert(self.finished(info));
        }
        Ok(info)
    }
}

} // verus!

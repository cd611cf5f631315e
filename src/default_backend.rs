//! The streaming backend: each node records the longest chain that ends at it, as a pointer
//! to the dependency that chain came through.
use crate::backend::{
    lemma_unique, unique, unique_keys, BuildInfo, CriticalPathEntry, KeyIndex, NodeData,
};
use crate::critical_path::{
    extract_critical_path, lemma_walk_in_map, acyclic, lemma_walk_stops, monotone, prev_earlier, saturating_add, CriticalPathMap, CriticalPathNode, CycleError,
};
use crate::node_key::{NodeDuration, NodeKey};
use vstd::prelude::*;

verus! {

proof fn lemma_index_of(s: Seq<NodeKey>, i: int)
    requires
        s.no_duplicates(),
        0 <= i < s.len(),
    ensures
        s.contains(s[i]),
        s.index_of(s[i]) == i,
{
    assert(s.contains(s[i]));
}

/// Longest chains by predecessor pointers. Nodes are numbered in the order they first appear.
pub struct DefaultBackend {
    ids: KeyIndex,
    predecessors: CriticalPathMap<NodeData>,
    num_nodes: u64,
    num_edges: u64,
}

impl DefaultBackend {
    pub closed spec fn wf(&self) -> bool {
        &&& self.ids.wf()
        &&& self.ids@.no_duplicates()
        &&& self.ids@.len() <= usize::MAX
        &&& self.predecessors.wf()
        &&& forall|i: u64| self.predecessors@.contains_key(i) <==> i < self.ids@.len()
        &&& forall|i: u64|
            #[trigger] self.predecessors@.contains_key(i) ==> match self.predecessors@[i].prev {
                Some(p) => p < self.ids@.len(),
                None => true,
            }
    }

    /// Whether `k` has been processed.
    pub closed spec fn has(&self, k: NodeKey) -> bool {
        self.ids@.contains(k)
    }

    /// The number of the node `k`.
    pub closed spec fn id(&self, k: NodeKey) -> u64 {
        self.ids@.index_of(k) as u64
    }

    /// The node that number `id` stands for.
    pub closed spec fn key_of(&self, id: u64) -> NodeKey {
        self.ids@[id as int]
    }

    /// The predecessor map over node numbers.
    pub closed spec fn predecessor_map(&self) -> CriticalPathMap<NodeData> {
        self.predecessors
    }

    pub open spec fn node(&self, k: NodeKey) -> CriticalPathNode<NodeData> {
        self.predecessor_map()@[self.id(k)]
    }

    /// The cumulative duration of the longest chain ending at `k`.
    pub open spec fn cumulative(&self, k: NodeKey) -> u64 {
        self.node(k).duration
    }

    /// The dependency the longest chain ending at `k` came through.
    pub open spec fn prev(&self, k: NodeKey) -> Option<NodeKey> {
        match self.node(k).prev {
            Some(p) => Some(self.key_of(p)),
            None => None,
        }
    }

    pub closed spec fn nodes(&self) -> u64 {
        self.num_nodes
    }

    pub closed spec fn edges(&self) -> u64 {
        self.num_edges
    }

    /// Among the processed keys of `deps`, the first one with the largest cumulative duration.
    pub open spec fn best_dep(&self, deps: Seq<NodeKey>) -> Option<NodeKey>
        decreases deps.len(),
    {
        if deps.len() == 0 {
            None
        } else {
            let b = self.best_dep(deps.drop_last());
            let d = deps.last();
            if self.has(d) && (b is None || self.cumulative(d) > self.cumulative(b.unwrap())) {
                Some(d)
            } else {
                b
            }
        }
    }

    /// `next` is `self` once `key` was processed with these arguments: `key` is now known,
    /// other nodes are unchanged, its chain comes through its best dependency, its data is
    /// stored, and the counters grew by one node and one edge per distinct dependency.
    pub open spec fn after_process(
        &self,
        next: &DefaultBackend,
        key: NodeKey,
        action: Option<u64>,
        duration: NodeDuration,
        dep_keys: Seq<NodeKey>,
        span_ids: Seq<u64>,
    ) -> bool {
        &&& forall|k: NodeKey| #[trigger] next.has(k) <==> self.has(k) || k == key
        &&& forall|k: NodeKey|
            self.has(k) && k != key ==> #[trigger] next.node(k) == self.node(k) && next.prev(k)
                == self.prev(k)
        &&& next.prev(key) == self.best_dep(unique(dep_keys))
        &&& next.cumulative(key) == match self.best_dep(unique(dep_keys)) {
            Some(d) => saturating_add(self.cumulative(d), duration.total),
            None => duration.total,
        }
        &&& next.node(key).value.action == action
        &&& next.node(key).value.duration == duration
        &&& next.node(key).value.span_ids@ == span_ids
        &&& monotone(self.predecessor_map()@) && !self.has(key) ==> monotone(
            next.predecessor_map()@,
        )
        &&& prev_earlier(self.predecessor_map()@) && !self.has(key) ==> prev_earlier(
            next.predecessor_map()@,
        )
        &&& next.nodes() == saturating_add(self.nodes(), 1)
        &&& next.edges() == saturating_add(self.edges(), unique(dep_keys).len() as u64)
    }

    /// The map holds exactly one entry per known key, under that key's number.
    pub proof fn lemma_domain(&self)
        requires
            self.wf(),
        ensures
            self.predecessor_map().wf(),
            forall|k: NodeKey|
                #[trigger] self.has(k) ==> self.predecessor_map()@.contains_key(self.id(k))
                    && self.key_of(self.id(k)) == k,
            forall|i: u64|
                #[trigger] self.predecessor_map()@.contains_key(i) ==> self.has(self.key_of(i))
                    && self.id(self.key_of(i)) == i,
    {
        assert forall|k: NodeKey| #[trigger] self.has(k) implies self.predecessor_map()@.contains_key(
            self.id(k),
        ) && self.key_of(self.id(k)) == k by {
            let j = self.ids@.index_of(k);
            assert(self.ids@[j] == k);
        }
        assert forall|i: u64| #[trigger] self.predecessor_map()@.contains_key(i) implies self.has(
            self.key_of(i),
        ) && self.id(self.key_of(i)) == i by {
            lemma_index_of(self.ids@, i as int);
        }
    }

    /// With nothing processed, the map is acyclic and its critical path is empty.
    pub proof fn lemma_empty_path(&self)
        requires
            self.wf(),
            self.predecessor_map()@ == Map::<u64, CriticalPathNode<NodeData>>::empty(),
        ensures
            acyclic(self.predecessor_map()@),
            self.predecessor_map().chain().len() == 0,
    {
        let pm = self.predecessor_map();
        pm.lemma_view_facts();
        pm.keys().unique_seq_to_set();
        assert(pm.keys().len() == 0);
        lemma_walk_stops(pm@, pm.tail(), 0, 1);
    }

    /// `best_dep` is the first of the known dependencies with the largest cumulative
    /// duration, and nothing where none is known.
    pub proof fn lemma_best_dep(&self, deps: Seq<NodeKey>)
        ensures
            self.best_dep(deps) is None <==> forall|i: int| 0 <= i < deps.len() ==> !self.has(
                #[trigger] deps[i],
            ),
            self.best_dep(deps) matches Some(b) ==> exists|i: int|
                0 <= i < deps.len() && deps[i] == b && self.has(b) && (forall|j: int|
                    0 <= j < i && self.has(#[trigger] deps[j]) ==> self.cumulative(deps[j])
                        < self.cumulative(b)),
            self.best_dep(deps) matches Some(b) ==> forall|j: int|
                0 <= j < deps.len() && self.has(#[trigger] deps[j]) ==> self.cumulative(deps[j])
                    <= self.cumulative(b),
        decreases deps.len(),
    {
        if deps.len() > 0 {
            let r = deps.drop_last();
            self.lemma_best_dep(r);
            let last = deps.len() - 1;
            assert(deps[last] == deps.last());
            assert forall|j: int| 0 <= j < r.len() implies r[j] == #[trigger] deps[j] by {}
            if let Some(b) = self.best_dep(deps) {
                if let Some(b0) = self.best_dep(r) {
                    let i0 = choose|i: int|
                        0 <= i < r.len() && r[i] == b0 && self.has(b0) && (forall|j: int|
                            0 <= j < i && self.has(#[trigger] r[j]) ==> self.cumulative(r[j])
                                < self.cumulative(b0));
                    if b == b0 {
                        assert(deps[i0] == b);
                        assert forall|j: int| 0 <= j < i0 && self.has(#[trigger] deps[j]) implies self.cumulative(deps[j])
                            < self.cumulative(b) by {
                            assert(r[j] == deps[j]);
                        }
                    } else {
                        assert forall|j: int| 0 <= j < last && self.has(#[trigger] deps[j]) implies self.cumulative(deps[j])
                            < self.cumulative(b) by {
                            assert(r[j] == deps[j]);
                        }
                    }
                } else {
                    assert forall|j: int| 0 <= j < last implies !self.has(#[trigger] deps[j]) by {
                        assert(r[j] == deps[j]);
                    }
                }
                assert forall|j: int| 0 <= j < deps.len() && self.has(#[trigger] deps[j]) implies self.cumulative(deps[j])
                    <= self.cumulative(b) by {
                    if j < last {
                        assert(r[j] == deps[j]);
                    }
                }
            } else {
                assert forall|i: int| 0 <= i < deps.len() implies !self.has(#[trigger] deps[i]) by {
                    if i < last {
                        assert(r[i] == deps[i]);
                    }
                }
            }
            if forall|i: int| 0 <= i < deps.len() ==> !self.has(#[trigger] deps[i]) {
                assert forall|i: int| 0 <= i < r.len() implies !self.has(#[trigger] r[i]) by {
                    assert(r[i] == deps[i]);
                }
                assert(!self.has(deps[last]));
            }
        }
    }

    pub fn new() -> (r: Self)
        ensures
            r.wf(),
            forall|k: NodeKey| !r.has(k),
            r.predecessor_map()@ == Map::<u64, CriticalPathNode<NodeData>>::empty(),
            monotone(r.predecessor_map()@),
            prev_earlier(r.predecessor_map()@),
            r.nodes() == 0,
            r.edges() == 0,
    {
        DefaultBackend {
            ids: KeyIndex::new(),
            predecessors: CriticalPathMap::new(),
            num_nodes: 0,
            num_edges: 0,
        }
    }

    fn lookup(&self, k: NodeKey) -> (r: Option<u64>)
        requires
            self.wf(),
        ensures
            match r {
                Some(i) => i < self.ids@.len() && self.ids@[i as int] == k && self.has(k) && self.id(
                    k,
                ) == i,
                None => !self.has(k),
            },
    {
        match self.ids.find(k) {
            Some(i) => {
                proof {
                    lemma_index_of(self.ids@, i as int);
                }
                Some(i as u64)
            },
            None => {
                proof {
                    assert(!self.ids@.contains(k));
                }
                None
            },
        }
    }

    /// Records that `key` was evaluated with these dependencies. Its longest chain comes
    /// through the first dependency with the largest cumulative duration, if any dependency
    /// is known; each distinct dependency counts as an edge.
    pub fn process_node(
        &mut self,
        key: NodeKey,
        action: Option<u64>,
        duration: NodeDuration,
        dep_keys: Vec<NodeKey>,
        span_ids: Vec<u64>,
    )
        requires
            old(self).wf(),
        ensures
            final(self).wf(),
            old(self).after_process(&*final(self), key, action, duration, dep_keys@, span_ids@),
    {
        let ghost pre = *self;
        let deps = unique_keys(&dep_keys);
        proof {
            lemma_unique(dep_keys@);
        }
        let mut best: Option<(u64, u64)> = None;
        let ghost mut best_key: Option<NodeKey> = None;
        let mut i: usize = 0;
        while i < deps.len()
            invariant
                self.wf(),
                *self == pre,
                i <= deps@.len(),
                best_key == self.best_dep(deps@.subrange(0, i as int)),
                match best {
                    Some((id, c)) => best_key == Some(self.ids@[id as int]) && id
                        < self.ids@.len() && self.has(self.ids@[id as int]) && self.id(
                        self.ids@[id as int],
                    ) == id && c == self.cumulative(self.ids@[id as int]),
                    None => best_key is None,
                },
            decreases deps@.len() - i,
        {
            assert(deps@.subrange(0, i + 1).drop_last() =~= deps@.subrange(0, i as int));
            let d = deps[i];
            match self.lookup(d) {
                Some(id) => {
                    match self.predecessors.get(id) {
                        Some(node) => {
                            let better = match best {
                                Some((_, c)) => node.duration > c,
                                None => true,
                            };
                            if better {
                                best = Some((id, node.duration));
                                proof {
                                    best_key = Some(d);
                                }
                            }
                        },
                        None => {},
                    }
                },
                None => {},
            }
            i = i + 1;
        }
        assert(deps@.subrange(0, deps@.len() as int) =~= deps@);
        let n_deps = deps.len() as u64;
        self.num_edges = self.num_edges.saturating_add(n_deps);
        let (prev, cumulative) = match best {
            Some((id, c)) => (Some(id), c.saturating_add(duration.total)),
            None => (None, duration.total),
        };
        let node = CriticalPathNode {
            duration: cumulative,
            value: NodeData { action, duration, span_ids },
            prev,
        };
        let id = match self.lookup(key) {
            Some(id) => id,
            None => {
                self.ids.push(key);
                let id = (self.ids.len() - 1) as u64;
                proof {
                    self.ids.lemma_distinct();
                }
                proof {
                    assert forall|j: int, l: int|
                        0 <= j < l < self.ids@.len() implies self.ids@[j] != self.ids@[l] by {
                        if l == self.ids@.len() - 1 {
                            assert(pre.ids@.contains(self.ids@[j]));
                        }
                    }
                }
                id
            },
        };
        assert(forall|q: int| 0 <= q < pre.ids@.len() ==> self.ids@[q] == pre.ids@[q]);
        assert(id <= pre.ids@.len());
        let ghost mid = *self;
        self.predecessors.insert(id, node);
        self.num_nodes = self.num_nodes.saturating_add(1);
        proof {
            assert(self.ids@[id as int] == key);
            lemma_index_of(self.ids@, id as int);
            assert forall|k: NodeKey| #[trigger] self.has(k) <==> pre.has(k) || k == key by {
                if pre.has(k) {
                    let j = pre.ids@.index_of(k);
                    assert(self.ids@[j] == k);
                }
                if self.has(k) && k != key {
                    let j = self.ids@.index_of(k);
                    assert(j != id);
                    assert(pre.ids@[j] == k);
                }
            }
            assert forall|k: NodeKey|
                pre.has(k) && k != key implies #[trigger] self.node(k) == pre.node(k) && self.prev(k)
                    == pre.prev(k) by {
                let j = pre.ids@.index_of(k);
                assert(pre.ids@.contains(k));
                assert(0 <= j < pre.ids@.len());
                lemma_index_of(pre.ids@, j);
                assert(self.ids@[j] == k);
                lemma_index_of(self.ids@, j);
                assert(j != id);
                assert(pre.predecessors@.contains_key(j as u64));
                assert(self.predecessors@[j as u64] == pre.predecessors@[j as u64]);
            }
            if let Some(p) = prev {
                assert(self.ids@[p as int] == pre.ids@[p as int]);
            }
            if prev_earlier(pre.predecessors@) && !pre.has(key) {
                let m = self.predecessors@;
                assert(id == pre.ids@.len());
                assert forall|k: u64|
                    #![trigger m[k]]
                    m.contains_key(k) && m[k].prev is Some implies m[k].prev.unwrap() < k by {
                    if k != id {
                        assert(pre.predecessors@.contains_key(k));
                        assert(m[k] == pre.predecessors@[k]);
                    }
                }
            }
            if monotone(pre.predecessors@) && !pre.has(key) {
                let m = self.predecessors@;
                assert(id == pre.ids@.len());
                assert forall|k: u64|
                    #![trigger m[k]]
                    m.contains_key(k) && m[k].prev.is_some() && m.contains_key(m[k].prev.unwrap())
                        implies m[m[k].prev.unwrap()].duration <= m[k].duration by {
                    if k != id {
                        assert(pre.predecessors@.contains_key(k));
                        let q = m[k].prev.unwrap();
                        assert(q < pre.ids@.len());
                        assert(m[q] == pre.predecessors@[q]);
                    } else {
                        let q = prev.unwrap();
                        assert(m[q] == pre.predecessors@[q]);
                    }
                }
            }
        }
    }

    /// `info` holds the extracted path, root first, each node with its data and no potential,
    /// and the node and edge counters.
    pub open spec fn finished(&self, info: BuildInfo) -> bool {
        let p = self.predecessor_map().chain().reverse();
        &&& info.critical_path@.len() == p.len()
        &&& forall|i: int|
            0 <= i < p.len() ==> {
                &&& (#[trigger] info.critical_path@[i]).key == self.key_of(p[i])
                &&& info.critical_path@[i].data.same(&self.predecessor_map()@[p[i]].value)
                &&& info.critical_path@[i].potential_improvement is None
            }
        &&& info.num_nodes == self.nodes()
        &&& info.num_edges == self.edges()
    }

    /// The critical path: the longest recorded chain, root first, each node with its data.
    /// Fails if the walk back from any node meets a node twice.
    pub fn finish(&self) -> (r: Result<BuildInfo, CycleError>)
        requires
            self.wf(),
        ensures
            r is Ok <==> acyclic(self.predecessor_map()@),
            r matches Ok(info) ==> self.finished(info),
    {
        let path = match extract_critical_path(&self.predecessors) {
            Err(e) => return Err(e),
            Ok(path) => path,
        };
        let ghost m = self.predecessors@;
        let ghost c = self.predecessors.chain();
        let ghost p = c.reverse();
        proof {
            lemma_walk_in_map(m, self.predecessors.tail(), (self.predecessors.keys().len() + 1) as nat);
        }
        let mut critical_path: Vec<CriticalPathEntry> = Vec::new();
        let mut i: usize = 0;
        while i < path.len()
            invariant
                self.wf(),
                m == self.predecessors@,
                path@.len() == p.len(),
                p == c.reverse(),
                forall|x: u64| c.contains(x) ==> m.contains_key(x),
                forall|j: int|
                    0 <= j < p.len() ==> {
                        &&& (#[trigger] path@[j]).0 == c[p.len() - 1 - j]
                        &&& *path@[j].1 == m[c[p.len() - 1 - j]].value
                    },
                i <= path@.len(),
                critical_path@.len() == i,
                forall|j: int|
                    0 <= j < i ==> {
                        &&& (#[trigger] critical_path@[j]).key == self.key_of(p[j])
                        &&& critical_path@[j].data.same(&m[p[j]].value)
                        &&& critical_path@[j].potential_improvement is None
                    },
            decreases path@.len() - i,
        {
            let (id, value, _) = path[i];
            proof {
                assert(p[i as int] == c[p.len() - 1 - i]);
                assert(c.contains(id));
                assert(m.contains_key(id));
                assert(id < self.ids@.len());
            }
            critical_path.push(
                CriticalPathEntry {
                    key: self.ids.get(id as usize),
                    data: value.duplicate(),
                    potential_improvement: None,
                },
            );
            i = i + 1;
        }
        Ok(BuildInfo { critical_path, num_nodes: self.num_nodes, num_edges: self.num_edges })
    }
}

} // verus!

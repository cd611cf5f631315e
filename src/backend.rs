//! What the critical-path backends store per node and what they hand back at the end.
use crate::node_key::{NodeDuration, NodeKey};
use std::collections::HashMap;
use vstd::prelude::*;

verus! {

broadcast use vstd::std_specs::hash::group_hash_axioms;

/// The payload of a graph node: the action it ran, if any, its duration, and its spans.
#[derive(Debug)]
pub struct NodeData {
    pub action: Option<u64>,
    pub duration: NodeDuration,
    pub span_ids: Vec<u64>,
}

impl NodeData {
    /// Equal fields, spans compared by content.
    pub open spec fn same(&self, other: &NodeData) -> bool {
        &&& self.action == other.action
        &&& self.duration == other.duration
        &&& self.span_ids@ == other.span_ids@
    }

    pub fn empty() -> (r: NodeData)
        ensures
            r.action is None,
            r.duration == (NodeDuration { user: 0, total: 0 }),
            r.span_ids@ == Seq::<u64>::empty(),
    {
        NodeData { action: None, duration: NodeDuration::zero(), span_ids: Vec::new() }
    }

    pub fn duplicate(&self) -> (r: NodeData)
        ensures
            r.same(self),
    {
        NodeData { action: self.action, duration: self.duration, span_ids: self.span_ids.clone() }
    }
}

/// One node of a computed critical path, with how much shorter the path would get if this
/// node took no time, where the backend knows it (microseconds).
#[derive(Debug)]
pub struct CriticalPathEntry {
    pub key: NodeKey,
    pub data: NodeData,
    pub potential_improvement: Option<u64>,
}

/// The outcome of a backend: its critical path, root first, and the size of its graph.
#[derive(Debug)]
pub struct BuildInfo {
    pub critical_path: Vec<CriticalPathEntry>,
    pub num_nodes: u64,
    pub num_edges: u64,
}

/// The first occurrence of each key of `s`, in order.
pub open spec fn unique(s: Seq<NodeKey>) -> Seq<NodeKey>
    decreases s.len(),
{
    if s.len() == 0 {
        Seq::empty()
    } else {
        let u = unique(s.drop_last());
        if u.contains(s.last()) {
            u
        } else {
            u.push(s.last())
        }
    }
}

pub proof fn lemma_unique(s: Seq<NodeKey>)
    ensures
        unique(s).no_duplicates(),
        forall|k: NodeKey| unique(s).contains(k) <==> s.contains(k),
        unique(s).len() <= s.len(),
    decreases s.len(),
{
    if s.len() > 0 {
        lemma_unique(s.drop_last());
        let r = s.drop_last();
        let u = unique(r);
        assert forall|k: NodeKey| unique(s).contains(k) <==> s.contains(k) by {
            if s.contains(k) {
                if k == s.last() {
                    if !u.contains(k) {
                        assert(unique(s)[u.len() as int] == k);
                    }
                } else {
                    let i = choose|i: int| 0 <= i < s.len() && s[i] == k;
                    assert(r[i] == k);
                    assert(r.contains(k));
                    let j = choose|j: int| 0 <= j < u.len() && u[j] == k;
                    assert(unique(s)[j] == k);
                }
            }
            if unique(s).contains(k) && k != s.last() {
                let j = choose|j: int| 0 <= j < unique(s).len() && unique(s)[j] == k;
                assert(u[j] == k);
                assert(u.contains(k));
                assert(r.contains(k));
                let i = choose|i: int| 0 <= i < r.len() && r[i] == k;
                assert(s[i] == k);
            }
        }
    }
}

pub fn contains_key(v: &Vec<NodeKey>, k: NodeKey) -> (r: bool)
    ensures
        r == v@.contains(k),
{
    let mut i: usize = 0;
    while i < v.len()
        invariant
            i <= v@.len(),
            forall|j: int| 0 <= j < i ==> v@[j] != k,
        decreases v@.len() - i,
    {
        if v[i] == k {
            return true;
        }
        i = i + 1;
    }
    false
}

/// The index of `k` among `keys`, if it is there.
pub open spec fn position(keys: Seq<NodeKey>, k: NodeKey) -> Option<usize> {
    if keys.contains(k) {
        Some(keys.index_of(k) as usize)
    } else {
        None
    }
}

/// The dependencies with repeats left out, each at its first place.
pub fn unique_keys(keys: &Vec<NodeKey>) -> (r: Vec<NodeKey>)
    ensures
        r@ == unique(keys@),
{
    let mut r: Vec<NodeKey> = Vec::new();
    let mut i: usize = 0;
    while i < keys.len()
        invariant
            i <= keys@.len(),
            r@ == unique(keys@.subrange(0, i as int)),
        decreases keys@.len() - i,
    {
        assert(keys@.subrange(0, i + 1).drop_last() =~= keys@.subrange(0, i as int));
        if !contains_key(&r, keys[i]) {
            r.push(keys[i]);
        }
        i = i + 1;
    }
    assert(keys@.subrange(0, keys@.len() as int) =~= keys@);
    r
}


/// The identifier a key carries, whatever its kind.
pub open spec fn payload(k: NodeKey) -> u64 {
    match k {
        NodeKey::BuildKey(p) => p,
        NodeKey::AnalysisKey(p) => p,
        NodeKey::EnsureProjectedArtifactKey(p) => p,
        NodeKey::EnsureTransitiveSetProjectionKey(p) => p,
        NodeKey::DeferredCompute(p) => p,
        NodeKey::DeferredResolve(p) => p,
        NodeKey::ConfiguredTargetNodeKey(p) => p,
        NodeKey::InterpreterResultsKey(p) => p,
        NodeKey::Materialization(p) => p,
    }
}

fn payload_of(k: NodeKey) -> (r: u64)
    ensures
        r == payload(k),
{
    match k {
        NodeKey::BuildKey(p) => p,
        NodeKey::AnalysisKey(p) => p,
        NodeKey::EnsureProjectedArtifactKey(p) => p,
        NodeKey::EnsureTransitiveSetProjectionKey(p) => p,
        NodeKey::DeferredCompute(p) => p,
        NodeKey::DeferredResolve(p) => p,
        NodeKey::ConfiguredTargetNodeKey(p) => p,
        NodeKey::InterpreterResultsKey(p) => p,
        NodeKey::Materialization(p) => p,
    }
}

/// Keys without repeats in the order they were added, found by their payload in a hash map
/// of positions.
pub struct KeyIndex {
    keys: Vec<NodeKey>,
    buckets: HashMap<u64, Vec<usize>>,
}

impl View for KeyIndex {
    type V = Seq<NodeKey>;

    closed spec fn view(&self) -> Seq<NodeKey> {
        self.keys@
    }
}

impl KeyIndex {
    pub closed spec fn wf(&self) -> bool {
        &&& self.keys@.no_duplicates()
        &&& forall|i: int|
            0 <= i < self.keys@.len() ==> self.buckets@.contains_key(payload(#[trigger] self.keys@[i]))
                && self.buckets@[payload(self.keys@[i])]@.contains(i as usize)
        &&& forall|p: u64, j: int|
            self.buckets@.contains_key(p) && 0 <= j < self.buckets@[p]@.len() ==> (
            #[trigger] self.buckets@[p]@[j]) < self.keys@.len()
    }

    pub proof fn lemma_distinct(&self)
        requires
            self.wf(),
        ensures
            self@.no_duplicates(),
    {
    }

    pub fn new() -> (r: Self)
        ensures
            r.wf(),
            r@ == Seq::<NodeKey>::empty(),
    {
        KeyIndex { keys: Vec::new(), buckets: HashMap::new() }
    }

    pub fn len(&self) -> (r: usize)
        ensures
            r == self@.len(),
    {
        self.keys.len()
    }

    pub fn get(&self, i: usize) -> (r: NodeKey)
        requires
            i < self@.len(),
        ensures
            r == self@[i as int],
    {
        self.keys[i]
    }

    /// The position of `k`, if it was added.
    pub fn find(&self, k: NodeKey) -> (r: Option<usize>)
        requires
            self.wf(),
        ensures
            r == position(self@, k),
            r matches Some(i) ==> i < self@.len() && self@[i as int] == k,
    {
        let bucket = match self.buckets.get(&payload_of(k)) {
            Some(b) => b,
            None => {
                proof {
                    if self.keys@.contains(k) {
                        let i = choose|i: int| 0 <= i < self.keys@.len() && self.keys@[i] == k;
                        assert(self.buckets@.contains_key(payload(self.keys@[i])));
                    }
                }
                return None;
            },
        };
        let ghost p = payload(k);
        let mut j: usize = 0;
        while j < bucket.len()
            invariant
                self.wf(),
                self.buckets@.contains_key(p),
                *bucket == self.buckets@[p],
                p == payload(k),
                j <= bucket@.len(),
                forall|x: int| 0 <= x < j ==> self.keys@[#[trigger] bucket@[x] as int] != k,
            decreases bucket@.len() - j,
        {
            let id = bucket[j];
            assert(id < self.keys@.len());
            if self.keys[id] == k {
                proof {
                    assert(self.keys@.contains(k));
                    let x = self.keys@.index_of(k);
                    assert(self.keys@[x] == k);
                    assert(x == id);
                }
                return Some(id);
            }
            j = j + 1;
        }
        let count = self.keys.len();
        proof {
            assert(self.keys@.len() == count);
            if self.keys@.contains(k) {
                let i = choose|i: int| 0 <= i < self.keys@.len() && self.keys@[i] == k;
                assert(bucket@.contains(i as usize));
                let x = choose|x: int| 0 <= x < bucket@.len() && bucket@[x] == i as usize;
                assert(self.keys@[bucket@[x] as int] == k);
            }
        }
        None
    }

    /// Adds a key not added before, at the end.
    pub fn push(&mut self, k: NodeKey)
        requires
            old(self).wf(),
            !old(self)@.contains(k),
        ensures
            final(self).wf(),
            final(self)@ == old(self)@.push(k),
    {
        let ghost pre = *self;
        let p = payload_of(k);
        let position = self.keys.len();
        let mut bucket = match self.buckets.get(&p) {
            Some(b) => b.clone(),
            None => Vec::new(),
        };
        let ghost old_bucket = bucket@;
        bucket.push(position);
        self.buckets.insert(p, bucket);
        self.keys.push(k);
        proof {
            assert forall|j: int, l: int| 0 <= j < l < self.keys@.len() implies self.keys@[j]
                != self.keys@[l] by {
                if l == self.keys@.len() - 1 {
                    assert(pre.keys@.contains(self.keys@[j]));
                }
            }
            assert forall|i: int|
                0 <= i < self.keys@.len() implies self.buckets@.contains_key(
                payload(#[trigger] self.keys@[i]),
            ) && self.buckets@[payload(self.keys@[i])]@.contains(i as usize) by {
                if i < pre.keys@.len() {
                    assert(self.keys@[i] == pre.keys@[i]);
                    if payload(pre.keys@[i]) == p {
                        let x = choose|x: int|
                            0 <= x < pre.buckets@[p]@.len() && pre.buckets@[p]@[x] == i as usize;
                        assert(self.buckets@[p]@[x] == i as usize);
                    }
                } else {
                    assert(self.buckets@[p]@[old_bucket.len() as int] == position);
                }
            }
            assert forall|q: u64, j: int|
                self.buckets@.contains_key(q) && 0 <= j < self.buckets@[q]@.len() implies (
                #[trigger] self.buckets@[q]@[j]) < self.keys@.len() by {
                if q == p && j < old_bucket.len() {
                    assert(self.buckets@[q]@[j] == pre.buckets@[q]@[j]);
                }
            }
        }
    }
}

} // verus!

//! Longest chains of a predecessor map, where every node records the cumulative duration of
//! the longest chain that ends at it and the node that chain came through.
use std::collections::HashMap;
use vstd::prelude::*;

verus! {

broadcast use vstd::std_specs::hash::group_hash_axioms;

/// One entry of a predecessor map.
pub struct CriticalPathNode<V> {
    /// The cumulative duration, in microseconds, of the longest chain ending at this node.
    pub duration: u64,
    /// The payload of this node.
    pub value: V,
    /// The node that the longest chain ending here came through, if any.
    pub prev: Option<u64>,
}

/// A map from node identifiers to their predecessor entries, remembering insertion order.
pub struct CriticalPathMap<V> {
    keys: Vec<u64>,
    nodes: Vec<CriticalPathNode<V>>,
    /// The position of each key in `keys`.
    index: HashMap<u64, usize>,
}

/// `a - b`, or zero where `b` is the larger.
pub open spec fn saturating_sub(a: u64, b: u64) -> u64 {
    if a >= b {
        (a - b) as u64
    } else {
        0
    }
}

/// `a + b`, or the largest `u64` where the sum does not fit.
pub open spec fn saturating_add(a: u64, b: u64) -> u64 {
    if a + b <= u64::MAX {
        (a + b) as u64
    } else {
        u64::MAX
    }
}

/// The index of the first largest element of `s` (zero for an empty sequence).
pub open spec fn first_max_index(s: Seq<u64>) -> int
    decreases s.len(),
{
    if s.len() <= 1 {
        0
    } else {
        let j = first_max_index(s.drop_last());
        if s.last() > s[j] {
            s.len() - 1
        } else {
            j
        }
    }
}

/// The position of the entry with the largest duration in `d`, the smallest key in `keys`
/// breaking ties (zero for empty sequences).
pub open spec fn tail_index(keys: Seq<u64>, d: Seq<u64>) -> int
    decreases d.len(),
{
    if d.len() <= 1 {
        0
    } else {
        let j = tail_index(keys.drop_last(), d.drop_last());
        let i = d.len() - 1;
        if d[i] > d[j] || (d[i] == d[j] && keys[i] < keys[j]) {
            i
        } else {
            j
        }
    }
}

/// Following one `prev` pointer from `t`.
pub open spec fn step<V>(m: Map<u64, CriticalPathNode<V>>, t: Option<u64>) -> Option<u64> {
    match t {
        Some(k) => if m.contains_key(k) {
            m[k].prev
        } else {
            None
        },
        None => None,
    }
}

/// Where the walk from `start` stands after `i` steps.
pub open spec fn cursor<V>(m: Map<u64, CriticalPathNode<V>>, start: Option<u64>, i: nat) -> Option<
    u64,
>
    decreases i,
{
    if i == 0 {
        start
    } else {
        step(m, cursor(m, start, (i - 1) as nat))
    }
}

/// The nodes of the map met in the first `i` steps of the walk from `start`, in walk order.
pub open spec fn walk<V>(m: Map<u64, CriticalPathNode<V>>, start: Option<u64>, i: nat) -> Seq<u64>
    decreases i,
{
    if i == 0 {
        Seq::empty()
    } else {
        let w = walk(m, start, (i - 1) as nat);
        match cursor(m, start, (i - 1) as nat) {
            Some(k) => if m.contains_key(k) {
                w.push(k)
            } else {
                w
            },
            None => w,
        }
    }
}

/// The contribution of the `i`-th node of the root-first path `p`: its cumulative duration
/// minus that of the node before it.
pub open spec fn contribution<V>(m: Map<u64, CriticalPathNode<V>>, p: Seq<u64>, i: int) -> u64 {
    if i == 0 {
        m[p[0]].duration
    } else {
        saturating_sub(m[p[i]].duration, m[p[i - 1]].duration)
    }
}

/// Every `prev` pointer that lands in the map points at a node whose cumulative duration is
/// no larger.
pub open spec fn monotone<V>(m: Map<u64, CriticalPathNode<V>>) -> bool {
    forall|k: u64|
        #![trigger m[k]]
        m.contains_key(k) && m[k].prev.is_some() && m.contains_key(m[k].prev.unwrap()) ==> m[m[
            k
        ].prev.unwrap()].duration <= m[k].duration
}

/// Every `prev` pointer names a smaller key: nodes only point back at nodes known before them.
pub open spec fn prev_earlier<V>(m: Map<u64, CriticalPathNode<V>>) -> bool {
    forall|k: u64|
        #![trigger m[k]]
        m.contains_key(k) && m[k].prev is Some ==> m[k].prev.unwrap() < k
}

impl<V> CriticalPathMap<V> {
    /// The keys in the order they were first inserted.
    pub closed spec fn keys(&self) -> Seq<u64> {
        self.keys@
    }

    pub closed spec fn view(&self) -> Map<u64, CriticalPathNode<V>> {
        Map::new(|k: u64| self.keys@.contains(k), |k: u64| self.nodes@[self.keys@.index_of(k)])
    }

    pub closed spec fn wf(&self) -> bool {
        &&& self.keys@.len() == self.nodes@.len()
        &&& self.keys@.no_duplicates()
        &&& forall|k: u64| #[trigger] self.index@.contains_key(k) <==> self.keys@.contains(k)
        &&& forall|k: u64|
            #[trigger] self.index@.contains_key(k) ==> self.index@[k] < self.keys@.len()
                && self.keys@[self.index@[k] as int] == k
    }

    /// The cumulative durations, in insertion order.
    pub closed spec fn durations(&self) -> Seq<u64> {
        self.nodes@.map_values(|n: CriticalPathNode<V>| n.duration)
    }

    /// The node a critical path ends at: the one with the largest cumulative duration, the
    /// smallest key among equals.
    pub open spec fn tail(&self) -> Option<u64> {
        if self.keys().len() == 0 {
            None
        } else {
            Some(self.keys()[tail_index(self.keys(), self.durations())])
        }
    }

    /// The walk back from the tail, long enough to either stop or revisit a node.
    pub open spec fn chain(&self) -> Seq<u64> {
        walk(self@, self.tail(), (self.keys().len() + 1) as nat)
    }

    proof fn lemma_index(&self, i: int)
        requires
            self.wf(),
            0 <= i < self.keys@.len(),
        ensures
            self.keys@.contains(self.keys@[i]),
            self.keys@.index_of(self.keys@[i]) == i,
            self@.contains_key(self.keys@[i]),
            self@[self.keys@[i]] == self.nodes@[i],
    {
        assert(self.keys@.contains(self.keys@[i]));
    }

    pub proof fn lemma_view_facts(&self)
        requires
            self.wf(),
        ensures
            self@.dom() == self.keys().to_set(),
            self.keys().no_duplicates(),
            self.durations().len() == self.keys().len(),
            forall|i: int|
                0 <= i < self.keys().len() ==> #[trigger] self.durations()[i]
                    == self@[self.keys()[i]].duration,
    {
        assert forall|i: int| 0 <= i < self.keys().len() implies #[trigger] self.durations()[i]
            == self@[self.keys()[i]].duration by {
            self.lemma_index(i);
        }
        assert(self@.dom() =~= self.keys().to_set());
    }

    pub fn new() -> (r: Self)
        ensures
            r.wf(),
            r@ == Map::<u64, CriticalPathNode<V>>::empty(),
            r.keys() == Seq::<u64>::empty(),
    {
        let r = CriticalPathMap { keys: Vec::new(), nodes: Vec::new(), index: HashMap::new() };
        assert(r@ =~= Map::<u64, CriticalPathNode<V>>::empty());
        r
    }

    fn find(&self, key: u64) -> (r: Option<usize>)
        requires
            self.wf(),
        ensures
            match r {
                Some(i) => i < self.keys@.len() && self.keys@[i as int] == key,
                None => !self.keys@.contains(key),
            },
    {
        match self.index.get(&key) {
            Some(i) => Some(*i),
            None => None,
        }
    }

    pub fn len(&self) -> (r: usize)
        requires
            self.wf(),
        ensures
            r == self@.len(),
            r == self.keys().len(),
    {
        proof {
            self.lemma_view_facts();
            self.keys@.unique_seq_to_set();
        }
        self.keys.len()
    }

    pub fn get(&self, key: u64) -> (r: Option<&CriticalPathNode<V>>)
        requires
            self.wf(),
        ensures
            match r {
                Some(n) => self@.contains_key(key) && *n == self@[key],
                None => !self@.contains_key(key),
            },
    {
        match self.find(key) {
            Some(i) => {
                proof {
                    self.lemma_index(i as int);
                }
                Some(&self.nodes[i])
            },
            None => None,
        }
    }

    /// Sets the entry of `key`, replacing any earlier one; a new key goes last in the order.
    pub fn insert(&mut self, key: u64, node: CriticalPathNode<V>)
        requires
            old(self).wf(),
        ensures
            final(self).wf(),
            final(self)@ == old(self)@.insert(key, node),
            final(self).keys() == if old(self)@.contains_key(key) {
                old(self).keys()
            } else {
                old(self).keys().push(key)
            },
    {
        match self.find(key) {
            Some(i) => {
                let ghost pre = *self;
                self.nodes.set(i, node);
                proof {
                    assert forall|k: u64| #[trigger] self@.contains_key(k) implies self@[k]
                        == pre@.insert(key, node)[k] by {
                        let j = self.keys@.index_of(k);
                        assert(self.keys@.contains(k));
                        self.lemma_index(j);
                        pre.lemma_index(j);
                    }
                    assert(self@ =~= pre@.insert(key, node));
                }
            },
            None => {
                let ghost pre = *self;
                let position = self.keys.len();
                self.keys.push(key);
                self.nodes.push(node);
                self.index.insert(key, position);
                proof {
                    assert forall|k: u64| #[trigger] self.index@.contains_key(k) <==> self.keys@.contains(k) by {
                        if pre.keys@.contains(k) {
                            let j = choose|j: int| 0 <= j < pre.keys@.len() && pre.keys@[j] == k;
                            assert(self.keys@[j] == k);
                        }
                        if self.keys@.contains(k) && k != key {
                            let j = choose|j: int| 0 <= j < self.keys@.len() && self.keys@[j] == k;
                            assert(j < pre.keys@.len());
                            assert(pre.keys@[j] == k);
                        }
                        assert(self.keys@[position as int] == key);
                    }
                    assert forall|j: int, l: int|
                        0 <= j < l < self.keys@.len() implies self.keys@[j] != self.keys@[l] by {
                        if l == self.keys@.len() - 1 {
                            assert(pre.keys@.contains(self.keys@[j]));
                        }
                    }
                    assert forall|k: u64| #[trigger] self@.contains_key(k) implies self@[k]
                        == pre@.insert(key, node)[k] by {
                        let j = self.keys@.index_of(k);
                        assert(self.keys@.contains(k));
                        self.lemma_index(j);
                        if j < pre.keys@.len() {
                            pre.lemma_index(j);
                        }
                    }
                    assert forall|k: u64| #[trigger] pre@.insert(key, node).contains_key(k)
                        implies self@.contains_key(k) by {
                        if k != key {
                            let j = pre.keys@.index_of(k);
                            assert(self.keys@[j] == k);
                        } else {
                            assert(self.keys@[pre.keys@.len() as int] == key);
                        }
                    }
                    assert(self@ =~= pre@.insert(key, node));
                }
            },
        }
    }
}


/// The walk only grows: a shorter walk is a prefix of a longer one.
pub proof fn lemma_walk_prefix<V>(m: Map<u64, CriticalPathNode<V>>, start: Option<u64>, i: nat, j: nat)
    requires
        i <= j,
    ensures
        walk(m, start, i).len() <= walk(m, start, j).len(),
        walk(m, start, j).subrange(0, walk(m, start, i).len() as int) == walk(m, start, i),
    decreases j - i,
{
    if i < j {
        lemma_walk_prefix(m, start, i, (j - 1) as nat);
        assert(walk(m, start, j).subrange(0, walk(m, start, i).len() as int) =~= walk(
            m,
            start,
            (j - 1) as nat,
        ).subrange(0, walk(m, start, i).len() as int));
    } else {
        assert(walk(m, start, j).subrange(0, walk(m, start, i).len() as int) =~= walk(m, start, i));
    }
}

/// Once the walk has stopped it stays where it is.
pub proof fn lemma_walk_stops<V>(m: Map<u64, CriticalPathNode<V>>, start: Option<u64>, i: nat, j: nat)
    requires
        i <= j,
        cursor(m, start, i) is None || !m.contains_key(cursor(m, start, i).unwrap()),
    ensures
        walk(m, start, j) == walk(m, start, i),
        cursor(m, start, j) is None || !m.contains_key(cursor(m, start, j).unwrap()),
    decreases j - i,
{
    if i < j {
        lemma_walk_stops(m, start, i, (j - 1) as nat);
    }
}

/// Every node of a walk is in the map.
pub proof fn lemma_walk_in_map<V>(m: Map<u64, CriticalPathNode<V>>, start: Option<u64>, i: nat)
    ensures
        forall|x: u64| walk(m, start, i).contains(x) ==> m.contains_key(x),
    decreases i,
{
    if i > 0 {
        lemma_walk_in_map(m, start, (i - 1) as nat);
    }
}

proof fn lemma_prefix_no_duplicates(s: Seq<u64>, n: int)
    requires
        s.no_duplicates(),
        0 <= n <= s.len(),
    ensures
        s.subrange(0, n).no_duplicates(),
{
}

/// A sequence without repeats drawn from the keys of a finite map is no longer than the map.
proof fn lemma_distinct_within<V>(m: Map<u64, CriticalPathNode<V>>, s: Seq<u64>)
    requires
        m.dom().finite(),
        s.no_duplicates(),
        forall|x: u64| s.contains(x) ==> m.contains_key(x),
    ensures
        s.len() <= m.dom().len(),
{
    s.unique_seq_to_set();
    assert(s.to_set().subset_of(m.dom()));
    vstd::set_lib::lemma_len_subset(s.to_set(), m.dom());
}

/// A path step of `extract_critical_path`: a node, its payload, and its contribution.
pub type PathEntry<'a, V> = (u64, &'a V, u64);

/// The reason a critical path could not be extracted.
pub struct CycleError {
    /// The node met twice while walking back.
    pub key: u64,
}

fn tail_position(keys: &Vec<u64>, d: &Vec<u64>) -> (r: usize)
    requires
        d@.len() > 0,
        keys@.len() == d@.len(),
    ensures
        r == tail_index(keys@, d@),
        r < d@.len(),
{
    let mut best: usize = 0;
    let mut i: usize = 1;
    while i < d.len()
        invariant
            1 <= i <= d@.len(),
            keys@.len() == d@.len(),
            best < i,
            best == tail_index(keys@.subrange(0, i as int), d@.subrange(0, i as int)),
        decreases d@.len() - i,
    {
        assert(d@.subrange(0, i + 1).drop_last() =~= d@.subrange(0, i as int));
        assert(keys@.subrange(0, i + 1).drop_last() =~= keys@.subrange(0, i as int));
        if d[i] > d[best] || (d[i] == d[best] && keys[i] < keys[best]) {
            best = i;
        }
        i = i + 1;
    }
    assert(d@.subrange(0, d@.len() as int) =~= d@);
    assert(keys@.subrange(0, keys@.len() as int) =~= keys@);
    best
}

/// The position of the first largest element of `v`.
pub fn first_max(v: &Vec<u64>) -> (r: usize)
    requires
        v@.len() > 0,
    ensures
        r == first_max_index(v@),
        r < v@.len(),
{
    let mut best: usize = 0;
    let mut i: usize = 1;
    while i < v.len()
        invariant
            1 <= i <= v@.len(),
            best < i,
            best == first_max_index(v@.subrange(0, i as int)),
        decreases v@.len() - i,
    {
        assert(v@.subrange(0, i + 1).drop_last() =~= v@.subrange(0, i as int));
        if v[i] > v[best] {
            best = i;
        }
        i = i + 1;
    }
    assert(v@.subrange(0, v@.len() as int) =~= v@);
    best
}

impl<V> CriticalPathMap<V> {
    fn cumulative_durations(&self) -> (r: Vec<u64>)
        requires
            self.wf(),
        ensures
            r@ == self.durations(),
    {
        let mut r: Vec<u64> = Vec::new();
        let mut i: usize = 0;
        while i < self.nodes.len()
            invariant
                self.wf(),
                i <= self.nodes@.len(),
                r@ == self.durations().subrange(0, i as int),
            decreases self.nodes@.len() - i,
        {
            r.push(self.nodes[i].duration);
            i = i + 1;
            assert(r@ =~= self.durations().subrange(0, i as int));
        }
        assert(r@ =~= self.durations());
        r
    }
}

/// The nodes met walking back from `start`, with their cumulative durations and payloads;
/// an error where the walk meets a node twice.
fn walk_back<'a, V>(predecessors: &'a CriticalPathMap<V>, start: Option<u64>) -> (r: Result<
    (Vec<u64>, Vec<u64>, Vec<&'a V>),
    CycleError,
>)
    requires
        predecessors.wf(),
    ensures
        r is Ok <==> walk(predecessors@, start, (predecessors.keys().len() + 1) as nat).no_duplicates(),
        r matches Ok((keys, cumulative, values)) ==> {
            let m = predecessors@;
            &&& keys@ == walk(m, start, (predecessors.keys().len() + 1) as nat)
            &&& cumulative@.len() == keys@.len()
            &&& values@.len() == keys@.len()
            &&& forall|j: int|
                0 <= j < keys@.len() ==> #[trigger] cumulative@[j] == m[keys@[j]].duration
                    && *values@[j] == m[keys@[j]].value
            &&& forall|x: u64| keys@.contains(x) ==> m.contains_key(x)
        },
{
    let ghost m = predecessors@;
    let ghost n: nat = predecessors.keys().len();
    proof {
        predecessors.lemma_view_facts();
        predecessors.keys().unique_seq_to_set();
    }
    let mut tail = start;
    let mut keys: Vec<u64> = Vec::new();
    let mut cumulative: Vec<u64> = Vec::new();
    let mut values: Vec<&'a V> = Vec::new();
    let mut visited: Vec<bool> = Vec::new();
    while visited.len() < predecessors.keys.len()
        invariant
            visited@.len() <= predecessors.keys@.len(),
            forall|q: int| 0 <= q < visited@.len() ==> !#[trigger] visited@[q],
        decreases predecessors.keys@.len() - visited@.len(),
    {
        visited.push(false);
    }
    let ghost mut i: nat = 0;
    loop
        invariant
            visited@.len() == predecessors.keys@.len(),
            forall|q: int|
                0 <= q < visited@.len() ==> (#[trigger] visited@[q] <==> keys@.contains(
                    predecessors.keys@[q],
                )),
            predecessors.wf(),
            m == predecessors@,
            m.dom().finite(),
            m.dom().len() == n,
            predecessors.keys().len() == n,
            keys@ == walk(m, start, i),
            tail == cursor(m, start, i),
            keys@.no_duplicates(),
            keys@.len() == i,
            i <= n,
            cumulative@.len() == i,
            values@.len() == i,
            forall|j: int|
                0 <= j < i ==> #[trigger] cumulative@[j] == m[keys@[j]].duration && *values@[j]
                    == m[keys@[j]].value,
        ensures
            tail is None || !m.contains_key(tail.unwrap()),
        decreases n + 1 - i,
    {
        let v = match tail {
            None => break,
            Some(v) => v,
        };
        let position = match predecessors.find(v) {
            None => {
                proof {
                    assert(!m.contains_key(v));
                }
                break;
            },
            Some(position) => position,
        };
        if visited[position] {
            proof {
                lemma_walk_in_map(m, start, i);
                assert(walk(m, start, i + 1) == keys@.push(v));
                lemma_walk_prefix(m, start, i + 1, n + 1);
                let w = walk(m, start, i + 1);
                let j = keys@.index_of(v);
                assert(w[j] == w[i as int]);
                if walk(m, start, (n + 1) as nat).no_duplicates() {
                    lemma_prefix_no_duplicates(walk(m, start, (n + 1) as nat), w.len() as int);
                }
            }
            return Err(CycleError { key: v });
        }
        let node = &predecessors.nodes[position];
        proof {
            predecessors.lemma_index(position as int);
        }
        let ghost before = keys@;
        keys.push(v);
        cumulative.push(node.duration);
        values.push(&node.value);
        visited.set(position, true);
        tail = node.prev;
        proof {
            i = i + 1;
            lemma_walk_in_map(m, start, i);
            lemma_distinct_within(m, keys@);
            assert forall|q: int|
                0 <= q < visited@.len() implies (#[trigger] visited@[q] <==> keys@.contains(
                    predecessors.keys@[q],
                )) by {
                let kq = predecessors.keys@[q];
                if q != position {
                    assert(kq != v);
                    if before.contains(kq) {
                        let x = choose|x: int| 0 <= x < before.len() && before[x] == kq;
                        assert(keys@[x] == kq);
                    }
                    if keys@.contains(kq) {
                        let x = choose|x: int| 0 <= x < keys@.len() && keys@[x] == kq;
                        assert(x < before.len());
                        assert(before[x] == kq);
                    }
                } else {
                    assert(keys@[before.len() as int] == v);
                }
            }
        }
    }
    proof {
        lemma_walk_stops(m, start, i, n + 1);
    }
    proof {
        lemma_walk_stops(m, start, i, n + 1);
        lemma_walk_in_map(m, start, i);
    }
    Ok((keys, cumulative, values))
}

/// Whether no walk back from any node of the map meets a node twice. Nodes whose walk is
/// known to stop are remembered, so each node is walked through once.
fn check_acyclic<V>(predecessors: &CriticalPathMap<V>) -> (r: Result<(), CycleError>)
    requires
        predecessors.wf(),
    ensures
        r is Ok <==> acyclic(predecessors@),
{
    let ghost m = predecessors@;
    let ghost keys = predecessors.keys@;
    let n = predecessors.keys.len();
    proof {
        predecessors.lemma_view_facts();
        predecessors.keys().unique_seq_to_set();
    }
    let mut good: Vec<bool> = Vec::new();
    let mut on_path: Vec<bool> = Vec::new();
    while good.len() < n
        invariant
            good@.len() == on_path@.len(),
            good@.len() <= n,
            forall|p: int| 0 <= p < good@.len() ==> !#[trigger] good@[p] && !on_path@[p],
        decreases n - good@.len(),
    {
        good.push(false);
        on_path.push(false);
    }
    assert forall|p: int| 0 <= p < n implies !#[trigger] on_path@[p] by {
        assert(!good@[p] && !on_path@[p]);
    }
    let mut q: usize = 0;
    while q < n
        invariant
            predecessors.wf(),
            m == predecessors@,
            keys == predecessors.keys@,
            n == keys.len(),
            m.dom().len() == n,
            m.dom() == keys.to_set(),
            good@.len() == n,
            on_path@.len() == n,
            q <= n,
            forall|p: int| 0 <= p < n ==> !#[trigger] on_path@[p],
            forall|p: int| 0 <= p < n && #[trigger] good@[p] ==> terminates(m, Some(keys[p])),
            forall|p: int| 0 <= p < q ==> #[trigger] good@[p],
        decreases n - q,
    {
        if !good[q] {
            let start = predecessors.keys[q];
            let ghost s = Some(start);
            assert(keys[q as int] == start);
            assert(keys.contains(start));
            assert(m.contains_key(start));
            let mut path: Vec<usize> = Vec::new();
            let mut cur: Option<u64> = Some(start);
            let ghost mut i: nat = 0;
            loop
                invariant
                    predecessors.wf(),
                    m == predecessors@,
                    keys == predecessors.keys@,
                    n == keys.len(),
                    m.dom().len() == n,
                    m.dom() == keys.to_set(),
                    good@.len() == n,
                    on_path@.len() == n,
                    q < n,
                    s == Some(keys[q as int]),
                    s == Some(start),
                    m.contains_key(start),
                    forall|p: int| 0 <= p < n && #[trigger] good@[p] ==> terminates(m, Some(keys[p])),
                    forall|p: int| 0 <= p < q ==> #[trigger] good@[p],
                    path@.len() == i,
                    i <= n,
                    cur == cursor(m, s, i),
                    walk(m, s, i).len() == i,
                    forall|j: int| 0 <= j < i ==> #[trigger] path@[j] < n && walk(m, s, i)[j] == keys[path@[j] as int],
                    forall|p: int| 0 <= p < n ==> (#[trigger] on_path@[p] <==> path@.contains(p as usize)),
                    walk(m, s, i).no_duplicates(),
                ensures
                    stopped(m, cur) || (cur is Some && exists|p: int| 0 <= p < n && keys[p] == cur.unwrap() && #[trigger] good@[p]),
                decreases n + 1 - i,
            {
                let v = match cur {
                    None => break,
                    Some(v) => v,
                };
                let p = match predecessors.find(v) {
                    None => break,
                    Some(p) => p,
                };
                if good[p] {
                    break;
                }
                if on_path[p] {
                    proof {
                        let w = walk(m, s, i);
                        lemma_walk_in_map(m, s, i);
                        assert(m.contains_key(v)) by {
                            predecessors.lemma_index(p as int);
                        }
                        assert(walk(m, s, i + 1) == w.push(v));
                        let x = choose|x: int| 0 <= x < path@.len() && path@[x] == p;
                        assert(w[x] == keys[p as int]);
                        let big = (m.dom().len() + 1) as nat;
                        lemma_walk_prefix(m, s, i + 1, big);
                        let wb = walk(m, s, big);
                        assert(wb[x] == w.push(v)[x]);
                        assert(wb[i as int] == w.push(v)[i as int]);
                        assert(m.contains_key(start));
                        assert(!wb.no_duplicates());
                    }
                    return Err(CycleError { key: v });
                }
                proof {
                    predecessors.lemma_index(p as int);
                }
                let ghost before = path@;
                path.push(p);
                on_path.set(p, true);
                cur = predecessors.nodes[p].prev;
                proof {
                    let w = walk(m, s, i);
                    assert(walk(m, s, i + 1) == w.push(v));
                    assert(!w.contains(v)) by {
                        if w.contains(v) {
                            let x = choose|x: int| 0 <= x < w.len() && w[x] == v;
                            assert(keys[before[x] as int] == keys[p as int]);
                            assert(before[x] == p);
                            assert(before.contains(p));
                        }
                    }
                    i = i + 1;
                    lemma_walk_in_map(m, s, i);
                    lemma_distinct_within(m, walk(m, s, i));
                    assert forall|pp: int| 0 <= pp < n implies (#[trigger] on_path@[pp] <==> path@.contains(pp as usize)) by {
                        if pp != p as int {
                            if before.contains(pp as usize) {
                                let x = choose|x: int| 0 <= x < before.len() && before[x] == pp as usize;
                                assert(path@[x] == pp as usize);
                            }
                            if path@.contains(pp as usize) {
                                let x = choose|x: int| 0 <= x < path@.len() && path@[x] == pp as usize;
                                assert(x < before.len());
                            }
                        } else {
                            assert(path@[before.len() as int] == p);
                        }
                    }
                    assert forall|j: int| 0 <= j < i implies #[trigger] path@[j] < n && walk(m, s, i)[j] == keys[path@[j] as int] by {
                        if j < i - 1 {
                            assert(path@[j] == before[j]);
                        }
                    }
                }
            }
            // Every node of the path stops: it walks into the stopping point of the path.
            proof {
                lemma_walk_cursor(m, s, i);
                if path@.len() == 0 {
                    assert(cur == s);
                    assert(!stopped(m, cur));
                    let pg = choose|p: int| 0 <= p < n && keys[p] == cur.unwrap() && #[trigger] good@[p];
                    assert(keys[pg] == keys[q as int]);
                    assert(pg == q as int);
                }
                assert(path@.len() > 0);
                assert(walk(m, s, i)[0] == keys[path@[0] as int]);
                assert(cursor(m, s, 0) == s);
                assert(walk(m, s, i)[0] == start);
                assert(path@[0] == q);
                assert forall|j: int| 0 <= j < i implies terminates(m, Some(keys[#[trigger] path@[j] as int])) by {
                    let x = Some(keys[path@[j] as int]);
                    assert(cursor(m, s, j as nat) == x);
                    lemma_cursor_compose(m, s, j as nat, (i - j) as nat);
                    assert(cursor(m, x, (i - j) as nat) == cur);
                    if stopped(m, cur) {
                        assert(stopped(m, cursor(m, x, (i - j) as nat)));
                    } else {
                        let pg = choose|p: int| 0 <= p < n && keys[p] == cur.unwrap() && #[trigger] good@[p];
                        assert(terminates(m, Some(keys[pg])));
                        let l = choose|l: nat| stopped(m, #[trigger] cursor(m, cur, l));
                        lemma_cursor_compose(m, x, (i - j) as nat, l);
                        assert(stopped(m, cursor(m, x, ((i - j) as nat + l) as nat)));
                    }
                }
            }
            let mut k: usize = 0;
            while k < path.len()
                invariant
                    good@.len() == n,
                    on_path@.len() == n,
                    k <= path@.len(),
                    forall|j: int| 0 <= j < path@.len() ==> #[trigger] path@[j] < n,
                    forall|j: int| 0 <= j < path@.len() ==> terminates(m, Some(keys[#[trigger] path@[j] as int])),
                    forall|p: int| 0 <= p < n && #[trigger] good@[p] ==> terminates(m, Some(keys[p])),
                    forall|p: int| 0 <= p < n ==> (#[trigger] on_path@[p] ==> exists|j: int| k <= j < path@.len() && path@[j] == p as usize),
                    forall|p: int| 0 <= p < q ==> #[trigger] good@[p],
                    path@.len() > 0 ==> path@[0] == q,
                    path@.len() > 0 && k > 0 ==> good@[q as int],
                decreases path@.len() - k,
            {
                let p = path[k];
                good.set(p, true);
                on_path.set(p, false);
                proof {
                    assert forall|pp: int| 0 <= pp < n implies (#[trigger] on_path@[pp] ==> exists|j: int| k + 1 <= j < path@.len() && path@[j] == pp as usize) by {
                        if on_path@[pp] {
                            assert(pp != p as int);
                            let j = choose|j: int| k <= j < path@.len() && path@[j] == pp as usize;
                            assert(j != k as int);
                        }
                    }
                }
                k = k + 1;
            }
        }
        q = q + 1;
    }
    proof {
        assert forall|k: u64| #![trigger m.contains_key(k)] m.contains_key(k) implies walk(
            m,
            Some(k),
            (m.dom().len() + 1) as nat,
        ).no_duplicates() by {
            assert(keys.to_set().contains(k));
            let j = keys.index_of(k);
            assert(keys[j] == k);
            assert(good@[j]);
            lemma_terminates_distinct(m, Some(k), (m.dom().len() + 1) as nat);
        }
    }
    Ok(())
}

/// The critical path of a predecessor map, root first: starting from the node with the largest
/// cumulative duration (the smallest key among equals), `prev` pointers are followed until one
/// is absent or leads out of the map. Each step carries its node, its payload, and its own
/// contribution, recovered as the difference of adjacent cumulative durations. A map in which
/// any walk back meets a node twice is an error.
pub fn extract_critical_path<'a, V>(predecessors: &'a CriticalPathMap<V>) -> (r: Result<
    Vec<PathEntry<'a, V>>,
    CycleError,
>)
    requires
        predecessors.wf(),
    ensures
        r is Ok <==> acyclic(predecessors@),
        r matches Ok(path) ==> {
            let m = predecessors@;
            let c = predecessors.chain();
            let n = c.len();
            &&& path@.len() == n
            &&& forall|i: int|
                0 <= i < n ==> {
                    &&& (#[trigger] path@[i]).0 == c[n - 1 - i]
                    &&& *path@[i].1 == m[c[n - 1 - i]].value
                    &&& path@[i].2 == contribution(m, c.reverse(), i)
                }
        },
{
    let ghost m = predecessors@;
    check_acyclic(predecessors)?;
    proof {
        lemma_acyclic_path_distinct(predecessors);
    }
    let tail0: Option<u64> = if predecessors.keys.len() == 0 {
        None
    } else {
        let durations = predecessors.cumulative_durations();
        let j = tail_position(&predecessors.keys, &durations);
        Some(predecessors.keys[j])
    };
    assert(tail0 == predecessors.tail());
    let (keys, cumulative, values) = match walk_back(predecessors, tail0) {
        Ok(w) => w,
        Err(e) => return Err(e),
    };
    let ghost c = keys@;
    assert(c == predecessors.chain());
    let len = keys.len();
    let mut path: Vec<PathEntry<'a, V>> = Vec::new();
    let mut k: usize = 0;
    while k < len
        invariant
            k <= len,
            len == c.len(),
            forall|x: u64| c.contains(x) ==> m.contains_key(x),
            keys@ == c,
            cumulative@.len() == len,
            values@.len() == len,
            forall|j: int|
                0 <= j < len ==> #[trigger] cumulative@[j] == m[c[j]].duration && *values@[j]
                    == m[c[j]].value,
            path@.len() == k,
            forall|j: int|
                0 <= j < k ==> {
                    &&& (#[trigger] path@[j]).0 == c[len - 1 - j]
                    &&& *path@[j].1 == m[c[len - 1 - j]].value
                    &&& path@[j].2 == contribution(m, c.reverse(), j)
                },
        decreases len - k,
    {
        let idx = len - 1 - k;
        let own = if k == 0 {
            cumulative[idx]
        } else {
            cumulative[idx].saturating_sub(cumulative[idx + 1])
        };
        path.push((keys[idx], values[idx], own));
        proof {
            assert(c.reverse()[k as int] == c[idx as int]);
            if k > 0 {
                assert(c.reverse()[k - 1] == c[idx + 1]);
            }
        }
        k = k + 1;
    }
    Ok(path)
}


/// The walk from `c` has stopped there: nothing to follow, or a node outside the map.
pub open spec fn stopped<V>(m: Map<u64, CriticalPathNode<V>>, c: Option<u64>) -> bool {
    c is None || !m.contains_key(c.unwrap())
}

/// The walk back from `s` stops after finitely many steps.
pub open spec fn terminates<V>(m: Map<u64, CriticalPathNode<V>>, s: Option<u64>) -> bool {
    exists|l: nat| stopped(m, #[trigger] cursor(m, s, l))
}

/// Walking `a` steps and then `b` more is walking `a + b` steps.
pub proof fn lemma_cursor_compose<V>(m: Map<u64, CriticalPathNode<V>>, s: Option<u64>, a: nat, b: nat)
    ensures
        cursor(m, s, a + b) == cursor(m, cursor(m, s, a), b),
    decreases b,
{
    if b > 0 {
        lemma_cursor_compose(m, s, a, (b - 1) as nat);
        assert((a + b) as nat == ((a + (b - 1)) as nat + 1) as nat);
    }
}

/// A walk that comes back to where it was, passing only through the map, never stops.
proof fn lemma_periodic<V>(m: Map<u64, CriticalPathNode<V>>, s: Option<u64>, a: nat, b: nat, j: nat)
    requires
        a < b,
        cursor(m, s, a) == cursor(m, s, b),
        forall|i: nat| a <= i < b ==> !stopped(m, #[trigger] cursor(m, s, i)),
        a <= j,
    ensures
        !stopped(m, cursor(m, s, j)),
    decreases j,
{
    if j >= b {
        let back = (j - (b - a)) as nat;
        lemma_cursor_compose(m, s, b, (j - b) as nat);
        lemma_cursor_compose(m, s, a, (j - b) as nat);
        assert(back == a + (j - b) as nat);
        assert(j == b + (j - b) as nat);
        lemma_periodic(m, s, a, b, back);
    }
}

/// A walk that stops meets no node twice.
pub proof fn lemma_terminates_distinct<V>(m: Map<u64, CriticalPathNode<V>>, s: Option<u64>, n: nat)
    requires
        terminates(m, s),
    ensures
        walk(m, s, n).no_duplicates(),
{
    let l = choose|l: nat| stopped(m, #[trigger] cursor(m, s, l));
    let w = walk(m, s, n);
    lemma_walk_cursor(m, s, n);
    if !w.no_duplicates() {
        let (a, b) = choose|a: int, b: int| 0 <= a < w.len() && 0 <= b < w.len() && a != b && w[a] == w[b];
        let (x, y) = if a < b { (a, b) } else { (b, a) };
        assert(cursor(m, s, x as nat) == Some(w[x]));
        assert(cursor(m, s, y as nat) == Some(w[y]));
        assert forall|i: nat| x <= i < y implies !stopped(m, #[trigger] cursor(m, s, i)) by {
            assert(cursor(m, s, i) == Some(w[i as int]));
        }
        if l >= x {
            lemma_periodic(m, s, x as nat, y as nat, l);
        } else {
            lemma_walk_stops(m, s, l, x as nat);
        }
    }
}

/// No walk back from a node of the map meets a node twice.
pub open spec fn acyclic<V>(m: Map<u64, CriticalPathNode<V>>) -> bool {
    forall|k: u64|
        #![trigger m.contains_key(k)]
        m.contains_key(k) ==> walk(m, Some(k), (m.dom().len() + 1) as nat).no_duplicates()
}

/// The walk meets the nodes the cursor stands on, one per step, until it stops for good.
pub proof fn lemma_walk_cursor<V>(m: Map<u64, CriticalPathNode<V>>, start: Option<u64>, i: nat)
    ensures
        walk(m, start, i).len() <= i,
        forall|j: int|
            0 <= j < walk(m, start, i).len() ==> cursor(m, start, j as nat) == Some(
                #[trigger] walk(m, start, i)[j],
            ) && m.contains_key(walk(m, start, i)[j]),
        walk(m, start, i).len() < i ==> {
            let c = cursor(m, start, walk(m, start, i).len());
            c is None || !m.contains_key(c.unwrap())
        },
    decreases i,
{
    if i > 0 {
        let w = walk(m, start, (i - 1) as nat);
        lemma_walk_cursor(m, start, (i - 1) as nat);
        if w.len() < i - 1 {
            lemma_walk_stops(m, start, w.len(), (i - 1) as nat);
        }
    }
}

/// Along a walk, each node is the `prev` of the node before it.
pub proof fn lemma_walk_links<V>(m: Map<u64, CriticalPathNode<V>>, start: Option<u64>, i: nat, j: int)
    requires
        0 <= j,
        j + 1 < walk(m, start, i).len(),
    ensures
        m.contains_key(walk(m, start, i)[j]),
        m[walk(m, start, i)[j]].prev == Some(walk(m, start, i)[j + 1]),
{
    lemma_walk_cursor(m, start, i);
    let w = walk(m, start, i);
    assert(cursor(m, start, (j + 1) as nat) == Some(w[j + 1]));
    assert(cursor(m, start, j as nat) == Some(w[j]));
}

/// Where every walk back is free of repeats, the walk from the tail holds each node once.
pub proof fn lemma_acyclic_path_distinct<V>(pm: &CriticalPathMap<V>)
    requires
        pm.wf(),
        acyclic(pm@),
    ensures
        pm.chain().no_duplicates(),
        pm.chain().len() <= pm@.dom().len(),
        forall|i: int, j: int|
            0 <= i < j < pm.chain().len() ==> pm.chain().reverse()[i] != pm.chain().reverse()[j],
{
    pm.lemma_view_facts();
    pm.keys().unique_seq_to_set();
    let c = pm.chain();
    if pm.keys().len() > 0 {
        let t = pm.tail().unwrap();
        lemma_tail_index(pm.keys(), pm.durations());
        assert(pm.keys().contains(t));
        assert(pm@.contains_key(t));
    } else {
        lemma_walk_stops(pm@, pm.tail(), 0, (pm.keys().len() + 1) as nat);
        assert(c =~= Seq::<u64>::empty());
    }
    lemma_walk_in_map(pm@, pm.tail(), (pm.keys().len() + 1) as nat);
    lemma_distinct_within(pm@, c);
}

/// Along the extracted path of a map whose cumulative durations never drop along a `prev`
/// pointer, each node's cumulative duration is that of the node before it plus its own
/// contribution, and the root's is its contribution.
pub proof fn lemma_cumulative_law<V>(pm: &CriticalPathMap<V>)
    requires
        pm.wf(),
        monotone(pm@),
        pm.chain().no_duplicates(),
    ensures
        pm.chain().len() > 0 ==> pm@[pm.chain().reverse()[0]].duration == contribution(
            pm@,
            pm.chain().reverse(),
            0,
        ),
        forall|i: int|
            #![trigger contribution(pm@, pm.chain().reverse(), i)]
            0 < i < pm.chain().len() ==> pm@[pm.chain().reverse()[i]].duration == pm@[pm.chain().reverse()[i
                - 1]].duration + contribution(pm@, pm.chain().reverse(), i),
{
    let m = pm@;
    let c = pm.chain();
    let p = c.reverse();
    let n = c.len();
    let steps = (pm.keys().len() + 1) as nat;
    assert forall|i: int|
        #![trigger contribution(m, p, i)]
        0 < i < n implies m[p[i]].duration == m[p[i - 1]].duration + contribution(m, p, i) by {
        let j = n - 1 - i;
        lemma_walk_links(m, pm.tail(), steps, j);
        lemma_walk_cursor(m, pm.tail(), steps);
        assert(m.contains_key(c[j + 1]));
        assert(m[c[j]].prev == Some(c[j + 1]));
        assert(m[c[j + 1]].duration <= m[c[j]].duration);
        assert(p[i] == c[j]);
        assert(p[i - 1] == c[j + 1]);
    }
}

/// Where the walk back from any node of the map meets some node twice, after any number of
/// steps, the map is not acyclic, so extraction fails.
pub proof fn lemma_cycle_detected<V>(pm: &CriticalPathMap<V>, k: u64, steps: nat)
    requires
        pm.wf(),
        pm@.contains_key(k),
        !walk(pm@, Some(k), steps).no_duplicates(),
    ensures
        !acyclic(pm@),
{
    let m = pm@;
    let t = Some(k);
    pm.lemma_view_facts();
    pm.keys().unique_seq_to_set();
    let n = (m.dom().len() + 1) as nat;
    let w = walk(m, t, n);
    if steps <= n {
        lemma_walk_prefix(m, t, steps, n);
        if w.no_duplicates() {
            lemma_prefix_no_duplicates(w, walk(m, t, steps).len() as int);
        }
    } else {
        if w.no_duplicates() {
            lemma_walk_in_map(m, t, n);
            lemma_distinct_within(m, w);
            lemma_walk_cursor(m, t, n);
            let l = w.len();
            lemma_walk_stops(m, t, l, steps);
            lemma_walk_stops(m, t, l, n);
        }
    }
    assert(m.contains_key(k));
}

/// The tail entry has the largest duration, and a smaller key than any other entry with as
/// large a duration.
pub proof fn lemma_tail_index(keys: Seq<u64>, d: Seq<u64>)
    requires
        d.len() > 0,
        keys.len() == d.len(),
        keys.no_duplicates(),
    ensures
        0 <= tail_index(keys, d) < d.len(),
        forall|i: int| 0 <= i < d.len() ==> #[trigger] d[i] <= d[tail_index(keys, d)],
        forall|i: int|
            0 <= i < d.len() && i != tail_index(keys, d) && #[trigger] d[i] == d[tail_index(
                keys,
                d,
            )] ==> keys[tail_index(keys, d)] < keys[i],
    decreases d.len(),
{
    if d.len() > 1 {
        let r = d.drop_last();
        let rk = keys.drop_last();
        lemma_tail_index(rk, r);
        let j = tail_index(rk, r);
        let t = tail_index(keys, d);
        let last = d.len() - 1;
        assert(d[j] == r[j] && keys[j] == rk[j]);
        assert(keys[last] != keys[j]);
        assert forall|i: int| 0 <= i < d.len() implies #[trigger] d[i] <= d[t] by {
            if i < last {
                assert(d[i] == r[i]);
            }
        }
        assert forall|i: int|
            0 <= i < d.len() && i != t && #[trigger] d[i] == d[t] implies keys[t] < keys[i] by {
            if i < last {
                assert(d[i] == r[i] && keys[i] == rk[i]);
                assert(keys[i] != keys[t]);
            }
        }
    }
}

/// The extracted path ends at a node whose cumulative duration is the largest of the map,
/// and whose key is smaller than that of any other node with as large a duration.
pub proof fn lemma_path_ends_at_maximum<V>(pm: &CriticalPathMap<V>)
    requires
        pm.wf(),
        pm.keys().len() > 0,
    ensures
        pm.tail() is Some,
        pm@.contains_key(pm.tail().unwrap()),
        pm.chain().len() > 0,
        pm.chain()[0] == pm.tail().unwrap(),
        pm.chain().reverse().last() == pm.tail().unwrap(),
        forall|k: u64| #[trigger] pm@.contains_key(k) ==> pm@[k].duration <= pm@[pm.tail().unwrap()].duration,
        forall|k: u64|
            #[trigger] pm@.contains_key(k) && k != pm.tail().unwrap() && pm@[k].duration
                == pm@[pm.tail().unwrap()].duration ==> pm.tail().unwrap() < k,
{
    let m = pm@;
    let d = pm.durations();
    pm.lemma_view_facts();
    lemma_tail_index(pm.keys(), d);
    let fm = tail_index(pm.keys(), d);
    let t = pm.keys()[fm];
    assert(pm.keys().contains(t));
    assert(pm.keys()[fm] == t);
    lemma_walk_prefix(m, pm.tail(), 1, (pm.keys().len() + 1) as nat);
    assert(m.contains_key(t));
    assert(cursor(m, pm.tail(), 0) == Some(t));
    assert(walk(m, pm.tail(), 0) =~= Seq::<u64>::empty());
    assert(walk(m, pm.tail(), 1) =~= seq![t]);
    assert(pm.chain().subrange(0, 1)[0] == pm.chain()[0]);
    assert(pm.chain()[0] == t);
    assert(pm.chain().reverse()[pm.chain().len() - 1] == pm.chain()[0]);
    assert forall|k: u64| #[trigger] m.contains_key(k) implies m[k].duration <= m[t].duration by {
        assert(pm.keys().to_set().contains(k));
        let i = pm.keys().index_of(k);
        assert(pm.keys()[i] == k);
        assert(d[i] == m[k].duration);
        assert(d[fm] == m[t].duration);
    }
    assert forall|k: u64|
        #[trigger] m.contains_key(k) && k != t && m[k].duration == m[t].duration implies t < k by {
        assert(pm.keys().to_set().contains(k));
        let i = pm.keys().index_of(k);
        assert(pm.keys()[i] == k);
        assert(d[i] == m[k].duration);
        assert(d[fm] == m[t].duration);
    }
}

/// The critical path depends on the map's contents alone, not on the order of insertion.
pub proof fn lemma_tail_determined<V>(a: &CriticalPathMap<V>, b: &CriticalPathMap<V>)
    requires
        a.wf(),
        b.wf(),
        a@ == b@,
    ensures
        a.tail() == b.tail(),
        a.chain() == b.chain(),
{
    a.lemma_view_facts();
    b.lemma_view_facts();
    a.keys().unique_seq_to_set();
    b.keys().unique_seq_to_set();
    if a.keys().len() > 0 {
        lemma_path_ends_at_maximum(a);
        lemma_path_ends_at_maximum(b);
        let ta = a.tail().unwrap();
        let tb = b.tail().unwrap();
        assert(a@.contains_key(tb) && b@.contains_key(ta));
        assert(a@[ta].duration == a@[tb].duration);
    }
}


proof fn lemma_decreasing(w: Seq<u64>, i: int, j: int)
    requires
        forall|k: int| 0 <= k < w.len() - 1 ==> #[trigger] w[k + 1] < w[k],
        0 <= i < j < w.len(),
    ensures
        w[j] < w[i],
    decreases j - i,
{
    if j > i + 1 {
        lemma_decreasing(w, i, j - 1);
        assert(w[(j - 1) + 1] < w[j - 1]);
    } else {
        assert(w[i + 1] < w[i]);
    }
}

/// Where every `prev` pointer names a smaller key, no walk meets a node twice, so
/// extraction succeeds.
pub proof fn lemma_prev_earlier_acyclic<V>(pm: &CriticalPathMap<V>)
    requires
        pm.wf(),
        prev_earlier(pm@),
    ensures
        acyclic(pm@),
{
    let m = pm@;
    let steps = (m.dom().len() + 1) as nat;
    assert forall|k0: u64| #![trigger m.contains_key(k0)] m.contains_key(k0) implies walk(
        m,
        Some(k0),
        steps,
    ).no_duplicates() by {
        let w = walk(m, Some(k0), steps);
        assert forall|k: int| 0 <= k < w.len() - 1 implies #[trigger] w[k + 1] < w[k] by {
            lemma_walk_links(m, Some(k0), steps, k);
        }
        assert forall|i: int, j: int| 0 <= i < j < w.len() implies w[i] != w[j] by {
            lemma_decreasing(w, i, j);
        }
    }
}

} // verus!

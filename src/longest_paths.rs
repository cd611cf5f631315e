//! Longest paths over a graph, and what each vertex of the longest one costs it. Each vertex
//! lists the vertices it depends on, and only dependencies numbered below the vertex count.
//! A graph renumbered along a topological order has no other kind, so there every edge
//! counts.
use crate::critical_path::{first_max, first_max_index, saturating_add};
use vstd::prelude::*;

verus! {

/// The dependency lists of a graph.
pub open spec fn graph_of(edges: Seq<Vec<usize>>) -> Seq<Seq<usize>> {
    edges.map_values(|es: Vec<usize>| es@)
}

/// The first of the dependencies `es` numbered below `v` with the largest `dist`, if any.
pub open spec fn best_pred(es: Seq<usize>, v: int, dist: Seq<u64>) -> Option<usize>
    decreases es.len(),
{
    if es.len() == 0 {
        None
    } else {
        let b = best_pred(es.drop_last(), v, dist);
        let u = es.last();
        if u < v && (b is None || dist[u as int] > dist[b.unwrap() as int]) {
            Some(u)
        } else {
            b
        }
    }
}

/// The first of the dependencies `es` with the largest `dist`, if any.
pub open spec fn best_any(es: Seq<usize>, dist: Seq<u64>) -> Option<usize>
    decreases es.len(),
{
    if es.len() == 0 {
        None
    } else {
        let b = best_any(es.drop_last(), dist);
        let u = es.last();
        if b is None || dist[u as int] > dist[b.unwrap() as int] {
            Some(u)
        } else {
            b
        }
    }
}

/// Where every dependency is numbered below its vertex, none is left out: the longest path
/// equations range over every edge.
pub proof fn lemma_all_edges_count(es: Seq<usize>, v: int, dist: Seq<u64>)
    requires
        forall|k: int| 0 <= k < es.len() ==> #[trigger] es[k] < v,
    ensures
        best_pred(es, v, dist) == best_any(es, dist),
    decreases es.len(),
{
    if es.len() > 0 {
        lemma_all_edges_count(es.drop_last(), v, dist);
        assert(es.last() == es[es.len() - 1]);
    }
}

/// The longest path ending at a vertex its dependency `p` leads to: that of `p`, or nothing.
pub open spec fn pred_dist(p: Option<usize>, dist: Seq<u64>) -> u64 {
    match p {
        Some(u) => dist[u as int],
        None => 0,
    }
}

/// `dist[v]` is the cost of the longest path ending at `v`: its own duration plus the longest
/// path ending at one of its earlier dependencies (saturating).
pub open spec fn is_longest(edges: Seq<Seq<usize>>, d: Seq<u64>, dist: Seq<u64>) -> bool {
    &&& dist.len() == d.len()
    &&& forall|v: int|
        0 <= v < d.len() ==> #[trigger] dist[v] == saturating_add(
            d[v],
            pred_dist(best_pred(edges[v], v, dist), dist),
        )
}

proof fn lemma_best_pred_stable(es: Seq<usize>, v: int, a: Seq<u64>, b: Seq<u64>)
    requires
        forall|u: int| 0 <= u < v ==> a[u] == b[u],
    ensures
        best_pred(es, v, a) == best_pred(es, v, b),
        best_pred(es, v, a) matches Some(u) ==> u < v && es.contains(u),
    decreases es.len(),
{
    if es.len() > 0 {
        lemma_best_pred_stable(es.drop_last(), v, a, b);
        if let Some(u) = best_pred(es.drop_last(), v, a) {
            let i = choose|i: int| 0 <= i < es.drop_last().len() && es.drop_last()[i] == u;
            assert(es[i] == u);
        }
        assert(es[es.len() - 1] == es.last());
    }
}

fn best_pred_of(es: &Vec<usize>, v: usize, dist: &Vec<u64>) -> (r: Option<usize>)
    requires
        forall|k: int| 0 <= k < es@.len() && es@[k] < v ==> es@[k] < dist@.len(),
    ensures
        r == best_pred(es@, v as int, dist@),
        r matches Some(u) ==> u < v,
{
    let mut best: Option<usize> = None;
    let mut i: usize = 0;
    while i < es.len()
        invariant
            i <= es@.len(),
            forall|k: int| 0 <= k < es@.len() && es@[k] < v ==> es@[k] < dist@.len(),
            best == best_pred(es@.subrange(0, i as int), v as int, dist@),
            best matches Some(u) ==> u < dist@.len() && u < v,
        decreases es@.len() - i,
    {
        assert(es@.subrange(0, i + 1).drop_last() =~= es@.subrange(0, i as int));
        let u = es[i];
        if u < v {
            let better = match best {
                Some(b) => dist[u] > dist[b],
                None => true,
            };
            if better {
                best = Some(u);
            }
        }
        i = i + 1;
    }
    assert(es@.subrange(0, es@.len() as int) =~= es@);
    best
}

/// The cost of the longest path ending at each vertex.
pub fn longest_paths(edges: &Vec<Vec<usize>>, d: &Vec<u64>) -> (r: Vec<u64>)
    requires
        edges@.len() == d@.len(),
    ensures
        is_longest(graph_of(edges@), d@, r@),
{
    let ghost g = graph_of(edges@);
    let mut dist: Vec<u64> = Vec::new();
    let mut v: usize = 0;
    while v < d.len()
        invariant
            edges@.len() == d@.len(),
            g == graph_of(edges@),
            v <= d@.len(),
            dist@.len() == v,
            forall|w: int|
                0 <= w < v ==> #[trigger] dist@[w] == saturating_add(
                    d@[w],
                    pred_dist(best_pred(g[w], w, dist@), dist@),
                ),
        decreases d@.len() - v,
    {
        let p = best_pred_of(&edges[v], v, &dist);
        let below = match p {
            Some(u) => dist[u],
            None => 0,
        };
        let ghost before = dist@;
        dist.push(d[v].saturating_add(below));
        proof {
            assert forall|w: int|
                0 <= w <= v implies #[trigger] dist@[w] == saturating_add(
                d@[w],
                pred_dist(best_pred(g[w], w, dist@), dist@),
            ) by {
                lemma_best_pred_stable(g[w], w, before, dist@);
                if w < v {
                    assert(dist@[w] == before[w]);
                    if let Some(u) = best_pred(g[w], w, before) {
                        assert(dist@[u as int] == before[u as int]);
                    }
                } else {
                    assert(g[w] == edges@[w]@);
                    if let Some(u) = best_pred(g[w], w, before) {
                        assert(dist@[u as int] == before[u as int]);
                    }
                }
            }
        }
        v = v + 1;
    }
    dist
}


/// Two solutions of the longest-path equations are equal.
pub proof fn lemma_longest_unique(edges: Seq<Seq<usize>>, d: Seq<u64>, a: Seq<u64>, b: Seq<u64>)
    requires
        is_longest(edges, d, a),
        is_longest(edges, d, b),
    ensures
        a == b,
{
    lemma_longest_agree(edges, d, a, b, d.len() as int);
    assert(a =~= b);
}

proof fn lemma_longest_agree(edges: Seq<Seq<usize>>, d: Seq<u64>, a: Seq<u64>, b: Seq<u64>, k: int)
    requires
        is_longest(edges, d, a),
        is_longest(edges, d, b),
        0 <= k <= d.len(),
    ensures
        forall|w: int| 0 <= w < k ==> a[w] == b[w],
    decreases k,
{
    if k > 0 {
        lemma_longest_agree(edges, d, a, b, k - 1);
        let w = k - 1;
        lemma_best_pred_stable(edges[w], w, a, b);
        assert(a[w] == saturating_add(d[w], pred_dist(best_pred(edges[w], w, a), a)));
        assert(b[w] == saturating_add(d[w], pred_dist(best_pred(edges[w], w, b), b)));
    }
}

/// The best earlier dependency has the largest `dist` among the dependencies below `v`.
proof fn lemma_best_pred_max(es: Seq<usize>, v: int, dist: Seq<u64>)
    ensures
        forall|k: int|
            0 <= k < es.len() && es[k] < v ==> dist[#[trigger] es[k] as int] <= pred_dist(
                best_pred(es, v, dist),
                dist,
            ),
        best_pred(es, v, dist) matches Some(u) ==> u < v && es.contains(u),
    decreases es.len(),
{
    if es.len() > 0 {
        let r = es.drop_last();
        lemma_best_pred_max(r, v, dist);
        assert forall|k: int| 0 <= k < es.len() && es[k] < v implies dist[#[trigger] es[k] as int]
            <= pred_dist(best_pred(es, v, dist), dist) by {
            if k < es.len() - 1 {
                assert(es[k] == r[k]);
            }
        }
        if let Some(u) = best_pred(r, v, dist) {
            let i = choose|i: int| 0 <= i < r.len() && r[i] == u;
            assert(es[i] == u);
        }
        assert(es[es.len() - 1] == es.last());
    }
}

/// The first largest element is at least every element.
proof fn lemma_first_max_bound(s: Seq<u64>)
    requires
        s.len() > 0,
    ensures
        0 <= first_max_index(s) < s.len(),
        forall|i: int| 0 <= i < s.len() ==> #[trigger] s[i] <= s[first_max_index(s)],
    decreases s.len(),
{
    if s.len() > 1 {
        let r = s.drop_last();
        lemma_first_max_bound(r);
        let j = first_max_index(r);
        assert(s[j] == r[j]);
        assert forall|i: int| 0 <= i < s.len() implies #[trigger] s[i] <= s[first_max_index(s)] by {
            if i < s.len() - 1 {
                assert(s[i] == r[i]);
            }
        }
    }
}

/// Zeroing vertex `x` leaves every longest path no longer, and shorter by at most `d[x]`;
/// paths ending below `x` keep their cost.
proof fn lemma_zeroed_paths(
    edges: Seq<Seq<usize>>,
    d: Seq<u64>,
    x: int,
    a: Seq<u64>,
    b: Seq<u64>,
    w: int,
)
    requires
        is_longest(edges, d, a),
        is_longest(edges, d.update(x, 0), b),
        0 <= x < d.len(),
        0 <= w <= d.len(),
    ensures
        forall|u: int| 0 <= u < w ==> #[trigger] b[u] <= a[u] && a[u] <= b[u] + d[x],
        forall|u: int| 0 <= u < w && u < x ==> #[trigger] a[u] == b[u],
    decreases w,
{
    if w > 0 {
        let v = w - 1;
        lemma_zeroed_paths(edges, d, x, a, b, v);
        let d2 = d.update(x, 0);
        lemma_best_pred_max(edges[v], v, a);
        lemma_best_pred_max(edges[v], v, b);
        let pa = pred_dist(best_pred(edges[v], v, a), a);
        let pb = pred_dist(best_pred(edges[v], v, b), b);
        assert(a[v] == saturating_add(d[v], pa));
        assert(b[v] == saturating_add(d2[v], pb));
        assert(pb <= pa) by {
            if let Some(u) = best_pred(edges[v], v, b) {
                let k = choose|k: int| 0 <= k < edges[v].len() && edges[v][k] == u;
                assert(b[edges[v][k] as int] <= a[edges[v][k] as int]);
                assert(a[edges[v][k] as int] <= pa);
            }
        }
        assert(pa <= pb + d[x]) by {
            if let Some(u) = best_pred(edges[v], v, a) {
                let k = choose|k: int| 0 <= k < edges[v].len() && edges[v][k] == u;
                assert(a[edges[v][k] as int] <= b[edges[v][k] as int] + d[x]);
                assert(b[edges[v][k] as int] <= pb);
            }
        }
        if v <= x {
            assert(pa == pb) by {
                if let Some(u) = best_pred(edges[v], v, a) {
                    let k = choose|k: int| 0 <= k < edges[v].len() && edges[v][k] == u;
                    assert(a[edges[v][k] as int] == b[edges[v][k] as int]);
                }
                if let Some(u) = best_pred(edges[v], v, b) {
                    let k = choose|k: int| 0 <= k < edges[v].len() && edges[v][k] == u;
                    assert(a[edges[v][k] as int] == b[edges[v][k] as int]);
                }
            }
        }
    }
}

/// Zeroing vertex `x` lowers the cost of the longest path by at most `d[x]`.
pub proof fn lemma_potential_bound(edges: Seq<Seq<usize>>, d: Seq<u64>, x: int, a: Seq<u64>, b: Seq<u64>)
    requires
        is_longest(edges, d, a),
        is_longest(edges, d.update(x, 0), b),
        0 <= x < d.len(),
    ensures
        cost(b) <= cost(a),
        cost(a) <= cost(b) + d[x],
{
    lemma_zeroed_paths(edges, d, x, a, b, d.len() as int);
    lemma_first_max_bound(a);
    lemma_first_max_bound(b);
    let ia = first_max_index(a);
    let ib = first_max_index(b);
    assert(b[ib] <= a[ib] && a[ib] <= a[ia]);
    assert(a[ia] <= b[ia] + d[x] && b[ia] <= b[ib]);
}

/// The cost of the longest path of the graph: the largest `dist`, or zero.
pub open spec fn cost(dist: Seq<u64>) -> u64 {
    if dist.len() == 0 {
        0
    } else {
        dist[first_max_index(dist)]
    }
}

/// `p`, root first, is the longest path: it ends at the first vertex of largest cost, each
/// vertex is the best earlier dependency of the next, and the root has none.
pub open spec fn is_critical_path(edges: Seq<Seq<usize>>, dist: Seq<u64>, p: Seq<usize>) -> bool {
    if dist.len() == 0 {
        p.len() == 0
    } else {
        &&& p.len() > 0
        &&& p.last() == first_max_index(dist)
        &&& best_pred(edges[p[0] as int], p[0] as int, dist) is None
        &&& forall|i: int|
            0 <= i < p.len() - 1 ==> best_pred(edges[#[trigger] p[i + 1] as int], p[i + 1] as int, dist)
                == Some(p[i])
    }
}

/// The longest path under the costs `dist`, root first.
pub fn critical_path_of(edges: &Vec<Vec<usize>>, dist: &Vec<u64>) -> (p: Vec<usize>)
    requires
        edges@.len() == dist@.len(),
    ensures
        is_critical_path(graph_of(edges@), dist@, p@),
        forall|i: int| 0 <= i < p@.len() ==> #[trigger] p@[i] < dist@.len(),
{
    let ghost g = graph_of(edges@);
    if dist.len() == 0 {
        return Vec::new();
    }
    let best = first_max(dist);
    // Walk back from the end, collecting the path leaf first.
    let mut back: Vec<usize> = Vec::new();
    let mut v: usize = best;
    loop
        invariant_except_break
            back@.len() == 0 ==> v == first_max_index(dist@),
            back@.len() > 0 ==> best_pred(g[back@.last() as int], back@.last() as int, dist@)
                == Some(v),
        invariant
            edges@.len() == dist@.len(),
            g == graph_of(edges@),
            v < dist@.len(),
            back@.len() > 0 ==> back@[0] == first_max_index(dist@),
            forall|j: int| 0 <= j < back@.len() ==> #[trigger] back@[j] < dist@.len(),
            forall|j: int|
                0 <= j < back@.len() - 1 ==> best_pred(g[#[trigger] back@[j] as int], back@[j] as int, dist@)
                    == Some(back@[j + 1]),
        ensures
            back@.len() > 0,
            best_pred(g[back@.last() as int], back@.last() as int, dist@) is None,
        decreases v,
    {
        assert(g[v as int] == edges@[v as int]@);
        let p = best_pred_of(&edges[v], v, dist);
        let ghost old_back = back@;
        back.push(v);
        proof {
            assert forall|j: int|
                0 <= j < back@.len() - 1 implies best_pred(g[#[trigger] back@[j] as int], back@[j] as int, dist@)
                    == Some(back@[j + 1]) by {
                if j < old_back.len() - 1 {
                    assert(back@[j] == old_back[j]);
                    assert(back@[j + 1] == old_back[j + 1]);
                } else {
                    assert(back@[j] == old_back.last());
                }
            }
        }
        match p {
            Some(u) => {
                v = u;
            },
            None => break,
        }
    }
    let n = back.len();
    let mut path: Vec<usize> = Vec::new();
    let mut k: usize = 0;
    while k < n
        invariant
            n == back@.len(),
            k <= n,
            path@.len() == k,
            forall|j: int| 0 <= j < k ==> #[trigger] path@[j] == back@[n - 1 - j],
        decreases n - k,
    {
        path.push(back[n - 1 - k]);
        k = k + 1;
    }
    proof {
        assert forall|i: int|
            0 <= i < path@.len() - 1 implies best_pred(g[#[trigger] path@[i + 1] as int], path@[i + 1] as int, dist@)
                == Some(path@[i]) by {
            assert(path@[i + 1] == back@[n - 2 - i]);
            assert(path@[i] == back@[n - 1 - i]);
        }
        assert(path@[0] == back@[n - 1]);
    }
    path
}

fn cost_of(dist: &Vec<u64>) -> (r: u64)
    ensures
        r == cost(dist@),
{
    if dist.len() == 0 {
        return 0;
    }
    let best = first_max(dist);
    dist[best]
}

/// The longest path of the graph with vertex durations `d`, root first, its cost, and for
/// each of its vertices the cost of the longest path once that vertex takes no time.
pub fn critical_path_potentials(edges: &Vec<Vec<usize>>, d: &Vec<u64>) -> (r: (
    Vec<usize>,
    u64,
    Vec<u64>,
))
    requires
        edges@.len() == d@.len(),
    ensures
        forall|dist: Seq<u64>|
            #[trigger] is_longest(graph_of(edges@), d@, dist) ==> is_critical_path(
                graph_of(edges@),
                dist,
                r.0@,
            ) && r.1 == cost(dist),
        r.2@.len() == r.0@.len(),
        forall|i: int| 0 <= i < r.0@.len() ==> #[trigger] r.0@[i] < d@.len(),
        forall|i: int, dist: Seq<u64>|
            0 <= i < r.0@.len() && is_longest(
                graph_of(edges@),
                d@.update(r.0@[i] as int, 0),
                dist,
            ) ==> #[trigger] r.2@[i] == #[trigger] cost(dist),
        forall|i: int|
            0 <= i < r.0@.len() ==> #[trigger] r.2@[i] <= r.1 && r.1 - r.2@[i] <= d@[r.0@[i] as int],
{
    let ghost g = graph_of(edges@);
    let dist = longest_paths(edges, d);
    let path = critical_path_of(edges, &dist);
    let total = cost_of(&dist);
    let mut replacement: Vec<u64> = Vec::new();
    let mut i: usize = 0;
    while i < path.len()
        invariant
            edges@.len() == d@.len(),
            g == graph_of(edges@),
            forall|j: int| 0 <= j < path@.len() ==> #[trigger] path@[j] < d@.len(),
            is_longest(g, d@, dist@),
            is_critical_path(g, dist@, path@),
            total == cost(dist@),
            i <= path@.len(),
            replacement@.len() == i,
            forall|j: int, other: Seq<u64>|
                0 <= j < i && is_longest(g, d@.update(path@[j] as int, 0), other) ==> #[trigger] replacement@[j]
                    == #[trigger] cost(other),
            forall|j: int|
                0 <= j < i ==> #[trigger] replacement@[j] <= total && total - replacement@[j] <= d@[path@[j] as int],
        decreases path@.len() - i,
    {
        let mut zeroed = d.clone();
        zeroed.set(path[i], 0);
        let replaced = longest_paths(edges, &zeroed);
        let c = cost_of(&replaced);
        proof {
            assert(zeroed@ =~= d@.update(path@[i as int] as int, 0));
            assert forall|other: Seq<u64>| is_longest(g, d@.update(path@[i as int] as int, 0), other) implies c
                == cost(other) by {
                lemma_longest_unique(g, zeroed@, replaced@, other);
            }
            lemma_potential_bound(g, d@, path@[i as int] as int, dist@, replaced@);
        }
        replacement.push(c);
        i = i + 1;
    }
    proof {
        assert forall|other: Seq<u64>| #[trigger] is_longest(g, d@, other) implies is_critical_path(g, other, path@)
            && total == cost(other) by {
            lemma_longest_unique(g, d@, dist@, other);
        }
    }
    (path, total, replacement)
}

} // verus!

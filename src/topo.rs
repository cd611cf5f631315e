//! Topological orders of dependency graphs, and renumbering a graph along one.
use crate::longest_paths::graph_of;
use vstd::prelude::*;

verus! {

/// `ord` lists every vertex once, each after all of its dependencies.
pub open spec fn is_topological(g: Seq<Seq<usize>>, ord: Seq<usize>) -> bool {
    &&& ord.len() == g.len()
    &&& ord.no_duplicates()
    &&& forall|i: int| 0 <= i < ord.len() ==> #[trigger] ord[i] < g.len()
    &&& forall|i: int, k: int|
        0 <= i < ord.len() && 0 <= k < g[ord[i] as int].len() ==> #[trigger] placed_before(
            g,
            ord,
            i,
            k,
        )
}

/// The `k`-th dependency of the `i`-th vertex of `ord` comes before it in `ord`.
pub open spec fn placed_before(g: Seq<Seq<usize>>, ord: Seq<usize>, i: int, k: int) -> bool {
    exists|j: int| 0 <= j < i && ord[j] == g[ord[i] as int][k]
}

/// Some vertex is not emitted and every such vertex has a dependency that is not either.
pub open spec fn stuck(g: Seq<Seq<usize>>, emitted: Seq<bool>) -> bool {
    &&& exists|v: int| 0 <= v < g.len() && !emitted[v]
    &&& forall|v: int|
        0 <= v < g.len() && !#[trigger] emitted[v] ==> exists|k: int|
            0 <= k < g[v].len() && !emitted[g[v][k] as int]
}

/// A vertex list without repeats, of as many vertices as the graph has, holds every vertex.
proof fn lemma_covers(ord: Seq<usize>, n: nat, v: usize)
    requires
        ord.len() == n,
        ord.no_duplicates(),
        forall|i: int| 0 <= i < ord.len() ==> #[trigger] ord[i] < n,
        v < n,
    ensures
        ord.contains(v),
{
    let w = ord.map_values(|x: usize| x as int);
    assert(w.no_duplicates()) by {
        assert forall|i: int, j: int| 0 <= i < j < w.len() implies w[i] != w[j] by {
            assert(ord[i] != ord[j]);
        }
    }
    w.unique_seq_to_set();
    let full = vstd::set_lib::set_int_range(0, n as int);
    vstd::set_lib::lemma_int_range(0, n as int);
    assert(w.to_set().subset_of(full));
    if !ord.contains(v) {
        assert forall|x: int| w.to_set().contains(x) implies full.remove(v as int).contains(x) by {
            let i = choose|i: int| 0 <= i < w.len() && w[i] == x;
            assert(ord[i] != v);
        }
        vstd::set_lib::lemma_len_subset(w.to_set(), full.remove(v as int));
    }
}

/// No vertex of a topological order is left over when the scan is stuck: the first one left
/// over would have all its dependencies emitted.
proof fn lemma_prefix_emitted(g: Seq<Seq<usize>>, emitted: Seq<bool>, ord: Seq<usize>, i: int)
    requires
        emitted.len() == g.len(),
        stuck(g, emitted),
        is_topological(g, ord),
        0 <= i <= ord.len(),
    ensures
        forall|j: int| 0 <= j < i ==> emitted[#[trigger] ord[j] as int],
    decreases i,
{
    if i > 0 {
        lemma_prefix_emitted(g, emitted, ord, i - 1);
        let v = ord[i - 1];
        if !emitted[v as int] {
            let k = choose|k: int| 0 <= k < g[v as int].len() && !emitted[g[v as int][k] as int];
            let u = g[ord[i - 1] as int][k];
            assert(placed_before(g, ord, i - 1, k));
            let j = choose|j: int| 0 <= j < i - 1 && #[trigger] ord[j] == u;
            assert(emitted[ord[j] as int]);
        }
    }
}

/// A stuck graph has no topological order.
pub proof fn lemma_stuck_no_order(g: Seq<Seq<usize>>, emitted: Seq<bool>, ord: Seq<usize>)
    requires
        emitted.len() == g.len(),
        g.len() <= usize::MAX,
        stuck(g, emitted),
    ensures
        !is_topological(g, ord),
{
    if is_topological(g, ord) {
        lemma_prefix_emitted(g, emitted, ord, ord.len() as int);
        let v = choose|v: int| 0 <= v < g.len() && !emitted[v];
        lemma_covers(ord, g.len(), v as usize);
        let j = choose|j: int| 0 <= j < ord.len() && ord[j] == v as usize;
        assert(ord[j] as int == v);
        assert(emitted[ord[j] as int]);
    }
}


proof fn lemma_contains_all(ord: Seq<usize>, n: nat)
    requires
        ord.no_duplicates(),
        forall|x: usize| x < n ==> ord.contains(x),
        n <= usize::MAX + 1,
    ensures
        ord.len() >= n,
{
    let w = ord.map_values(|x: usize| x as int);
    assert(w.no_duplicates()) by {
        assert forall|i: int, j: int| 0 <= i < j < w.len() implies w[i] != w[j] by {
            assert(ord[i] != ord[j]);
        }
    }
    w.unique_seq_to_set();
    let full = vstd::set_lib::set_int_range(0, n as int);
    vstd::set_lib::lemma_int_range(0, n as int);
    assert forall|x: int| full.contains(x) implies w.to_set().contains(x) by {
        assert(ord.contains(x as usize));
        let i = choose|i: int| 0 <= i < ord.len() && ord[i] == x as usize;
        assert(w[i] == x);
    }
    vstd::set_lib::lemma_len_subset(full, w.to_set());
}


fn all_deps_emitted(es: &Vec<usize>, emitted: &Vec<bool>) -> (r: bool)
    requires
        forall|k: int| 0 <= k < es@.len() ==> #[trigger] es@[k] < emitted@.len(),
    ensures
        r <==> forall|k: int| 0 <= k < es@.len() ==> emitted@[#[trigger] es@[k] as int],
{
    let mut k: usize = 0;
    while k < es.len()
        invariant
            k <= es@.len(),
            forall|k: int| 0 <= k < es@.len() ==> #[trigger] es@[k] < emitted@.len(),
            forall|j: int| 0 <= j < k ==> emitted@[#[trigger] es@[j] as int],
        decreases es@.len() - k,
    {
        if !emitted[es[k]] {
            return false;
        }
        k = k + 1;
    }
    true
}

/// A topological order of the graph, or nothing where it has none (it has a cycle).
pub fn topological_order(edges: &Vec<Vec<usize>>) -> (r: Option<Vec<usize>>)
    requires
        forall|v: int, k: int|
            0 <= v < edges@.len() && 0 <= k < edges@[v]@.len() ==> #[trigger] edges@[v]@[k]
                < edges@.len(),
    ensures
        r matches Some(ord) ==> is_topological(graph_of(edges@), ord@),
        r is None ==> forall|ord: Seq<usize>| !#[trigger] is_topological(graph_of(edges@), ord),
{
    let ghost g = graph_of(edges@);
    let n = edges.len();
    let mut emitted: Vec<bool> = Vec::new();
    while emitted.len() < n
        invariant
            emitted@.len() <= n,
            forall|v: int| 0 <= v < emitted@.len() ==> !#[trigger] emitted@[v],
        decreases n - emitted@.len(),
    {
        emitted.push(false);
    }
    let mut ord: Vec<usize> = Vec::new();
    loop
        invariant
            n == edges@.len(),
            g == graph_of(edges@),
            forall|v: int, k: int|
                0 <= v < edges@.len() && 0 <= k < edges@[v]@.len() ==> #[trigger] edges@[v]@[k]
                    < edges@.len(),
            emitted@.len() == n,
            ord@.len() <= n,
            ord@.no_duplicates(),
            forall|i: int| 0 <= i < ord@.len() ==> #[trigger] ord@[i] < n,
            forall|v: int| 0 <= v < n ==> (#[trigger] emitted@[v] <==> ord@.contains(v as usize)),
            forall|i: int, k: int|
                0 <= i < ord@.len() && 0 <= k < g[ord@[i] as int].len() ==> #[trigger] placed_before(
                    g,
                    ord@,
                    i,
                    k,
                ),
        decreases n - ord@.len(),
    {
        assert(g.len() == n);
        if ord.len() == n {
            return Some(ord);
        }
        let mut found: Option<usize> = None;
        let mut v: usize = 0;
        while v < n
            invariant
                n == edges@.len(),
                g == graph_of(edges@),
                forall|v: int, k: int|
                    0 <= v < edges@.len() && 0 <= k < edges@[v]@.len() ==> #[trigger] edges@[v]@[k]
                        < edges@.len(),
                emitted@.len() == n,
                v <= n,
                found matches Some(w) ==> w < n && !emitted@[w as int] && forall|k: int|
                    0 <= k < g[w as int].len() ==> emitted@[#[trigger] g[w as int][k] as int],
                found is None ==> forall|w: int|
                    0 <= w < v && !#[trigger] emitted@[w] ==> exists|k: int|
                        0 <= k < g[w].len() && !emitted@[g[w][k] as int],
            ensures
                found is None ==> v == n,
            decreases n - v,
        {
            if !emitted[v] {
                assert(g[v as int] == edges@[v as int]@);
                if all_deps_emitted(&edges[v], &emitted) {
                    found = Some(v);
                    break;
                } else {
                    proof {
                        let es = edges@[v as int]@;
                        let k = choose|k: int| 0 <= k < es.len() && !emitted@[#[trigger] es[k] as int];
                        assert(g[v as int][k] == es[k]);
                    }
                }
            }
            v = v + 1;
        }
        match found {
            Some(w) => {
                let ghost before = ord@;
                ord.push(w);
                emitted.set(w, true);
                proof {
                    assert forall|i: int, j: int| 0 <= i < j < ord@.len() implies ord@[i] != ord@[j] by {
                        if j == ord@.len() - 1 {
                            assert(!before.contains(w));
                        }
                    }
                    assert forall|u: int| 0 <= u < n implies (#[trigger] emitted@[u] <==> ord@.contains(
                        u as usize,
                    )) by {
                        if ord@.contains(u as usize) && u != w {
                            let i = choose|i: int| 0 <= i < ord@.len() && ord@[i] == u as usize;
                            assert(before[i] == u as usize);
                        }
                        if u != w && before.contains(u as usize) {
                            let i = choose|i: int| 0 <= i < before.len() && before[i] == u as usize;
                            assert(ord@[i] == u as usize);
                        }
                        if u == w {
                            assert(ord@[before.len() as int] == w);
                        }
                    }
                    assert forall|i: int, k: int|
                        0 <= i < ord@.len() && 0 <= k < g[ord@[i] as int].len() implies #[trigger] placed_before(
                            g,
                            ord@,
                            i,
                            k,
                        ) by {
                        if i < before.len() {
                            assert(ord@[i] == before[i]);
                            assert(placed_before(g, before, i, k));
                            let j = choose|j: int| 0 <= j < i && before[j] == g[before[i] as int][k];
                            assert(ord@[j] == before[j]);
                        } else {
                            let u = g[w as int][k];
                            assert(before.contains(u));
                            let j = choose|j: int| 0 <= j < before.len() && before[j] == u;
                            assert(ord@[j] == u);
                        }
                    }
                }
            },
            None => {
                proof {
                    if forall|u: int| 0 <= u < n ==> #[trigger] emitted@[u] {
                        assert forall|x: usize| x < n implies ord@.contains(x) by {
                            assert(emitted@[x as int]);
                        }
                        lemma_contains_all(ord@, n as nat);
                    }
                    assert(stuck(g, emitted@));
                    assert forall|o: Seq<usize>| !#[trigger] is_topological(g, o) by {
                        lemma_stuck_no_order(g, emitted@, o);
                    }
                }
                return None;
            },
        }
    }
}


/// The graph with vertex `ord[i]` renamed `i`.
pub open spec fn renumbered(g: Seq<Seq<usize>>, ord: Seq<usize>) -> Seq<Seq<usize>> {
    Seq::new(
        ord.len(),
        |i: int| g[ord[i] as int].map_values(|u: usize| ord.index_of(u) as usize),
    )
}

/// The durations with vertex `ord[i]` renamed `i`.
pub open spec fn reordered(d: Seq<u64>, ord: Seq<usize>) -> Seq<u64> {
    Seq::new(ord.len(), |i: int| d[ord[i] as int])
}

/// Every dependency is numbered below its dependent.
pub open spec fn downward(g: Seq<Seq<usize>>) -> bool {
    forall|v: int, k: int| 0 <= v < g.len() && 0 <= k < g[v].len() ==> #[trigger] g[v][k] < v
}

/// Along a topological order, every renumbered edge points to a lower number.
pub proof fn lemma_renumbered_downward(g: Seq<Seq<usize>>, ord: Seq<usize>)
    requires
        is_topological(g, ord),
        g.len() <= usize::MAX,
    ensures
        downward(renumbered(g, ord)),
{
    let r = renumbered(g, ord);
    assert forall|v: int, k: int| 0 <= v < r.len() && 0 <= k < r[v].len() implies #[trigger] r[v][k]
        < v by {
        assert(placed_before(g, ord, v, k));
        let u = g[ord[v] as int][k];
        let j = choose|j: int| 0 <= j < v && ord[j] == g[ord[v] as int][k];
        assert(ord.contains(u));
        let x = ord.index_of(u);
        assert(ord[x] == u);
        assert(x == j);
    }
}

/// The graph renumbered along one of its topological orders, with every edge kept and each
/// pointing to a lower number.
pub fn renumber(edges: &Vec<Vec<usize>>, ord: &Vec<usize>) -> (r: Vec<Vec<usize>>)
    requires
        is_topological(graph_of(edges@), ord@),
    ensures
        graph_of(r@) == renumbered(graph_of(edges@), ord@),
        downward(graph_of(r@)),
{
    let ghost g = graph_of(edges@);
    let n = ord.len();
    let mut pos: Vec<usize> = Vec::new();
    while pos.len() < n
        invariant
            pos@.len() <= n,
        decreases n - pos@.len(),
    {
        pos.push(0);
    }
    let mut i: usize = 0;
    while i < n
        invariant
            n == ord@.len(),
            is_topological(g, ord@),
            g == graph_of(edges@),
            pos@.len() == n,
            i <= n,
            forall|j: int| 0 <= j < i ==> #[trigger] pos@[ord@[j] as int] == j,
        decreases n - i,
    {
        let ghost before = pos@;
        pos.set(ord[i], i);
        proof {
            assert forall|j: int| 0 <= j <= i implies #[trigger] pos@[ord@[j] as int] == j by {
                if j < i {
                    assert(ord@[j] != ord@[i as int]);
                    assert(pos@[ord@[j] as int] == before[ord@[j] as int]);
                }
            }
        }
        i = i + 1;
    }
    let mut r: Vec<Vec<usize>> = Vec::new();
    let mut i: usize = 0;
    while i < n
        invariant
            n == ord@.len(),
            is_topological(g, ord@),
            g == graph_of(edges@),
            pos@.len() == n,
            forall|j: int| 0 <= j < n ==> #[trigger] pos@[ord@[j] as int] == j,
            i <= n,
            r@.len() == i,
            forall|j: int| 0 <= j < i ==> #[trigger] r@[j]@ == renumbered(g, ord@)[j],
            forall|j: int, k: int| 0 <= j < i && 0 <= k < r@[j]@.len() ==> #[trigger] r@[j]@[k] < j,
        decreases n - i,
    {
        let es = &edges[ord[i]];
        let mut out: Vec<usize> = Vec::new();
        let mut k: usize = 0;
        assert(g[ord@[i as int] as int] == es@);
        while k < es.len()
            invariant
                n == ord@.len(),
                i < n,
                is_topological(g, ord@),
                g[ord@[i as int] as int] == es@,
                pos@.len() == n,
                forall|j: int| 0 <= j < n ==> #[trigger] pos@[ord@[j] as int] == j,
                k <= es@.len(),
                out@.len() == k,
                forall|q: int|
                    0 <= q < k ==> #[trigger] out@[q] == ord@.index_of(es@[q]) as usize && out@[q]
                        < i,
            decreases es@.len() - k,
        {
            let u = es[k];
            proof {
                assert(placed_before(g, ord@, i as int, k as int));
                let j = choose|j: int| 0 <= j < i && ord@[j] == g[ord@[i as int] as int][k as int];
                assert(ord@.contains(u));
                let x = ord@.index_of(u);
                assert(ord@[x] == u);
                assert(x == j);
                assert(u < n);
            }
            out.push(pos[u]);
            k = k + 1;
        }
        proof {
            assert(out@ =~= renumbered(g, ord@)[i as int]);
        }
        r.push(out);
        i = i + 1;
    }
    assert(graph_of(r@) =~= renumbered(g, ord@));
    r
}

} // verus!

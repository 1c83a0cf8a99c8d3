//! Analysis of the movie similarity graph and of the clean records:
//! degree centrality, a reachability-count approximation of betweenness
//! centrality, connected-component clustering, and average score-gap
//! aggregates by decade and by genre.

use vstd::prelude::*;

verus! {

use crate::data_cleaning::{CleanMovie, CleanMovieView, clean_views};
use crate::graph_builder::{SimilarityGraph, edge_connects};

/// Whether `p` is a walk through `g`: a non-empty sequence of node indices
/// in which consecutive nodes are joined by an edge.
pub open spec fn is_path(g: SimilarityGraph, p: Seq<int>) -> bool {
    &&& p.len() >= 1
    &&& forall|k: int| 0 <= k < p.len() ==> 0 <= #[trigger] p[k] < g.node_count()
    &&& forall|k: int| 0 <= k < p.len() - 1 ==> g.has_edge(#[trigger] p[k], p[k + 1])
}

/// Whether node `j` is reachable from node `i` along edges of `g`. Every
/// in-range node is connected to itself.
pub open spec fn connected(g: SimilarityGraph, i: int, j: int) -> bool {
    exists|p: Seq<int>| is_path(g, p) && p.first() == i && p.last() == j
}

/// A visited marking is closed when no edge leads from a marked node to an
/// unmarked one.
pub open spec fn closed_under_edges(g: SimilarityGraph, visited: Seq<bool>) -> bool {
    &&& visited.len() == g.node_count()
    &&& forall|x: int, y: int|
        0 <= x < g.node_count() && 0 <= y < g.node_count() && visited[x] && #[trigger] g.has_edge(
            x,
            y,
        ) ==> visited[y]
}

/// Every in-range node is connected to itself.
pub proof fn lemma_connected_refl(g: SimilarityGraph, i: int)
    requires
        0 <= i < g.node_count(),
    ensures
        connected(g, i, i),
{
    let p = seq![i];
    assert(is_path(g, p));
    assert(p.first() == i && p.last() == i);
}

/// An edge is symmetric: if it joins `i` to `j` it joins `j` to `i`.
pub proof fn lemma_has_edge_sym(g: SimilarityGraph, i: int, j: int)
    requires
        g.has_edge(i, j),
    ensures
        g.has_edge(j, i),
{
    let k = choose|k: int| 0 <= k < g.edges@.len() && edge_connects(#[trigger] g.edges@[k], i, j);
    assert(edge_connects(g.edges@[k], j, i));
}

/// A path extended by one edge stays a path.
pub proof fn lemma_connected_extend(g: SimilarityGraph, i: int, j: int, k: int)
    requires
        connected(g, i, j),
        g.has_edge(j, k),
        0 <= k < g.node_count(),
    ensures
        connected(g, i, k),
{
    let p = choose|p: Seq<int>| is_path(g, p) && p.first() == i && p.last() == j;
    let q = p.push(k);
    assert(q.last() == k);
    assert(q.first() == i);
    assert forall|t: int| 0 <= t < q.len() - 1 implies g.has_edge(#[trigger] q[t], q[t + 1]) by {
        if t < p.len() - 1 {
            assert(q[t] == p[t] && q[t + 1] == p[t + 1]);
        } else {
            assert(q[t] == p.last() && q[t + 1] == k);
        }
    }
    assert(is_path(g, q));
}

/// Connectivity is symmetric: reverse the path.
pub proof fn lemma_connected_sym(g: SimilarityGraph, i: int, j: int)
    requires
        connected(g, i, j),
    ensures
        connected(g, j, i),
{
    let p = choose|p: Seq<int>| is_path(g, p) && p.first() == i && p.last() == j;
    let q = Seq::new(p.len(), |t: int| p[p.len() - 1 - t]);
    assert forall|t: int| 0 <= t < q.len() - 1 implies g.has_edge(#[trigger] q[t], q[t + 1]) by {
        let u = p.len() - 1 - t;
        assert(g.has_edge(p[u - 1], p[u]));
        lemma_has_edge_sym(g, p[u - 1], p[u]);
    }
    assert(is_path(g, q));
    assert(q.first() == j && q.last() == i);
}

/// A path that starts inside a closed marking ends inside it.
proof fn lemma_path_in_closed(g: SimilarityGraph, visited: Seq<bool>, p: Seq<int>)
    requires
        closed_under_edges(g, visited),
        is_path(g, p),
        visited[p.first()],
    ensures
        visited[p.last()],
    decreases p.len(),
{
    if p.len() == 1 {
    } else {
        let q = p.drop_last();
        assert(is_path(g, q));
        lemma_path_in_closed(g, visited, q);
        assert(g.has_edge(p[p.len() - 2], p[p.len() - 1]));
    }
}

/// Every node reachable from a marked node of a closed marking is marked.
pub proof fn lemma_connected_in_closed(g: SimilarityGraph, visited: Seq<bool>, src: int, dst: int)
    requires
        closed_under_edges(g, visited),
        connected(g, src, dst),
        visited[src],
    ensures
        visited[dst],
{
    let p = choose|p: Seq<int>| is_path(g, p) && p.first() == src && p.last() == dst;
    lemma_path_in_closed(g, visited, p);
}

/// A duplicate-free sequence of indices below `n` has at most `n` elements.
proof fn lemma_distinct_len_at_most(s: Seq<usize>, n: nat)
    requires
        s.no_duplicates(),
        forall|k: int| 0 <= k < s.len() ==> (#[trigger] s[k]) < n,
    ensures
        s.len() <= n,
{
    broadcast use vstd::seq_lib::seq_to_set_is_finite;
    broadcast use vstd::set::group_set_axioms;

    let si = s.map_values(|u: usize| u as int);
    assert(si.no_duplicates());
    si.unique_seq_to_set();
    vstd::set_lib::lemma_int_range(0, n as int);
    assert forall|x: int| si.to_set().contains(x) implies vstd::set_lib::set_int_range(
        0,
        n as int,
    ).contains(x) by {
        let k = choose|k: int| 0 <= k < si.len() && si[k] == x;
        assert(s[k] < n);
    }
    vstd::set_lib::lemma_len_subset(si.to_set(), vstd::set_lib::set_int_range(0, n as int));
}

/// A duplicate-free sequence of indices below `n` that contains every index
/// below `n` has exactly `n` elements.
proof fn lemma_distinct_covering_len(s: Seq<usize>, n: nat)
    requires
        n <= usize::MAX,
        s.no_duplicates(),
        forall|k: int| 0 <= k < s.len() ==> (#[trigger] s[k]) < n,
        forall|j: int| 0 <= j < n ==> s.contains(#[trigger] (j as usize)),
    ensures
        s.len() == n,
{
    broadcast use vstd::seq_lib::seq_to_set_is_finite;
    broadcast use vstd::set::group_set_axioms;

    let si = s.map_values(|u: usize| u as int);
    assert(si.no_duplicates());
    si.unique_seq_to_set();
    vstd::set_lib::lemma_int_range(0, n as int);
    let range = vstd::set_lib::set_int_range(0, n as int);
    assert forall|x: int| si.to_set().contains(x) implies range.contains(x) by {
        let k = choose|k: int| 0 <= k < si.len() && si[k] == x;
        assert(s[k] < n);
    }
    assert forall|x: int| range.contains(x) implies si.to_set().contains(x) by {
        assert(s.contains(x as usize));
        let k = choose|k: int| 0 <= k < s.len() && s[k] == x as usize;
        assert(si[k] == x);
    }
    assert(si.to_set() =~= range);
}

/// Breadth-first search from `src` over the edges of `g`.
///
/// Marks every node reachable from `src` as visited and returns the newly
/// visited nodes, `src` first, in discovery order. The marking handed in
/// must be closed, so the search never meets an already-visited node; the
/// marking handed back is closed again.
fn bfs_from(g: &SimilarityGraph, src: usize, visited: &mut Vec<bool>) -> (order: Vec<usize>)
    requires
        g.wf(),
        old(visited)@.len() == g.node_count(),
        src < g.node_count(),
        !old(visited)@[src as int],
        closed_under_edges(*g, old(visited)@),
    ensures
        final(visited)@.len() == g.node_count(),
        forall|j: int|
            0 <= j < g.node_count() ==> (#[trigger] final(visited)@[j] <==> old(visited)@[j]
                || connected(*g, src as int, j)),
        closed_under_edges(*g, final(visited)@),
        order@.len() >= 1 && order@[0] == src,
        forall|k: int| 0 <= k < order@.len() ==> (#[trigger] order@[k]) < g.node_count(),
        order@.no_duplicates(),
        forall|j: int|
            0 <= j < g.node_count() ==> (order@.contains(j as usize) <==> connected(
                *g,
                src as int,
                j,
            )),
        forall|k: int| 0 <= k < order@.len() ==> !old(visited)@[(#[trigger] order@[k]) as int],
{
    let ghost old_vis = visited@;
    let n = g.nodes.len();
    let mut order: Vec<usize> = Vec::new();
    visited.set(src, true);
    order.push(src);
    let mut head: usize = 0;
    proof {
        lemma_connected_refl(*g, src as int);
        assert(order@[0] == src);
    }
    while head < order.len()
        invariant
            g.wf(),
            n == g.node_count(),
            visited@.len() == n,
            src < n,
            old_vis.len() == n,
            !old_vis[src as int],
            closed_under_edges(*g, old_vis),
            head <= order@.len() <= n,
            order@.len() >= 1,
            order@[0] == src,
            forall|k: int| 0 <= k < order@.len() ==> (#[trigger] order@[k]) < n,
            order@.no_duplicates(),
            forall|j: int|
                0 <= j < n ==> (visited@[j] <==> old_vis[j] || order@.contains(j as usize)),
            forall|k: int|
                0 <= k < order@.len() ==> connected(*g, src as int, (#[trigger] order@[k]) as int),
            forall|k: int| 0 <= k < order@.len() ==> !old_vis[(#[trigger] order@[k]) as int],
            forall|k: int, y: int|
                0 <= k < head && 0 <= y < n && g.has_edge(#[trigger] order@[k] as int, y)
                    ==> #[trigger] visited@[y],
        decreases n - order@.len(), order@.len() - head,
    {
        let v = order[head];
        let ghost order_at_head = order@;
        let mut eidx: usize = 0;
        while eidx < g.edges.len()
            invariant
                order_at_head.len() <= order@.len(),
                g.wf(),
                n == g.node_count(),
                visited@.len() == n,
                src < n,
                old_vis.len() == n,
                !old_vis[src as int],
                closed_under_edges(*g, old_vis),
                head < order@.len() <= n,
                order@.len() >= 1,
                order@[0] == src,
                v == order@[head as int],
                eidx <= g.edges@.len(),
                forall|k: int| 0 <= k < order@.len() ==> (#[trigger] order@[k]) < n,
                order@.no_duplicates(),
                forall|j: int|
                    0 <= j < n ==> (visited@[j] <==> old_vis[j] || order@.contains(j as usize)),
                forall|k: int|
                    0 <= k < order@.len() ==> connected(
                        *g,
                        src as int,
                        (#[trigger] order@[k]) as int,
                    ),
                forall|k: int| 0 <= k < order@.len() ==> !old_vis[(#[trigger] order@[k]) as int],
                forall|k: int, y: int|
                    0 <= k < head && 0 <= y < n && g.has_edge(#[trigger] order@[k] as int, y)
                        ==> #[trigger] visited@[y],
                forall|k: int|
                    0 <= k < eidx ==> (((#[trigger] g.edges@[k]).0 == v
                        ==> visited@[g.edges@[k].1 as int]) && (g.edges@[k].1 == v
                        ==> visited@[g.edges@[k].0 as int])),
            decreases g.edges@.len() - eidx,
        {
            let e = g.edges[eidx];
            let other: usize = if e.0 == v {
                e.1
            } else if e.1 == v {
                e.0
            } else {
                v
            };
            if other != v && !visited[other] {
                let ghost old_order = order@;
                let ghost old_visited = visited@;
                visited.set(other, true);
                order.push(other);
                proof {
                    assert(edge_connects(g.edges@[eidx as int], v as int, other as int));
                    assert(g.has_edge(v as int, other as int));
                    lemma_connected_extend(*g, src as int, v as int, other as int);
                    assert forall|j: int|
                        0 <= j < n implies (visited@[j] <==> old_vis[j] || order@.contains(
                        j as usize,
                    )) by {
                        vstd::seq_lib::lemma_seq_contains_after_push(
                            old_order,
                            other,
                            j as usize,
                        );
                    }
                    assert forall|k1: int, k2: int|
                        0 <= k1 < k2 < order@.len() implies order@[k1] != order@[k2] by {
                        if k2 == order@.len() - 1 {
                            assert(!old_visited[other as int]);
                            assert(!old_order.contains(other));
                            assert(order@[k1] == old_order[k1]);
                            if order@[k1] == other {
                                assert(old_order.contains(other));
                            }
                        }
                    }
                    lemma_distinct_len_at_most(order@, n as nat);
                }
            }
            proof {
                assert forall|k: int|
                    0 <= k < eidx + 1 implies (((#[trigger] g.edges@[k]).0 == v
                        ==> visited@[g.edges@[k].1 as int]) && (g.edges@[k].1 == v
                        ==> visited@[g.edges@[k].0 as int])) by {}
            }
            eidx += 1;
        }
        proof {
            assert forall|k: int, y: int|
                0 <= k < head + 1 && 0 <= y < n && g.has_edge(
                    #[trigger] order@[k] as int,
                    y,
                ) implies #[trigger] visited@[y] by {
                if k == head {
                    let ke = choose|ke: int|
                        0 <= ke < g.edges@.len() && edge_connects(
                            #[trigger] g.edges@[ke],
                            v as int,
                            y,
                        );
                }
            }
        }
        head += 1;
    }
    proof {
        assert(closed_under_edges(*g, visited@)) by {
            assert forall|x: int, y: int|
                0 <= x < n && 0 <= y < n && visited@[x] && #[trigger] g.has_edge(
                    x,
                    y,
                ) implies visited@[y] by {
                if old_vis[x] {
                } else {
                    assert(order@.contains(x as usize));
                    let k = choose|k: int| 0 <= k < order@.len() && order@[k] == x as usize;
                }
            }
        }
        assert forall|j: int|
            0 <= j < n implies (visited@[j] <==> old_vis[j] || connected(
            *g,
            src as int,
            j,
        )) by {
            if visited@[j] && !old_vis[j] {
                assert(order@.contains(j as usize));
            }
            if connected(*g, src as int, j) {
                lemma_connected_in_closed(*g, visited@, src as int, j);
            }
        }
        assert forall|j: int|
            0 <= j < n implies (order@.contains(j as usize) <==> connected(
            *g,
            src as int,
            j,
        )) by {
            if order@.contains(j as usize) {
                let k = choose|k: int| 0 <= k < order@.len() && order@[k] == j as usize;
            }
            if connected(*g, src as int, j) {
                lemma_connected_in_closed(*g, visited@, src as int, j);
                if old_vis[j] {
                    lemma_connected_sym(*g, src as int, j);
                    lemma_connected_in_closed(*g, old_vis, j, src as int);
                }
            }
        }
    }
    order
}

/// Total number of entries across all clusters.
pub open spec fn sum_lens(cs: Seq<Seq<usize>>) -> int
    decreases cs.len(),
{
    if cs.len() == 0 {
        0
    } else {
        sum_lens(cs.drop_last()) + cs.last().len()
    }
}

/// What `find_cluster_indices` guarantees: `cs` lists the connected
/// components of `g`. Each cluster is non-empty and holds node indices; the
/// members of a cluster are exactly the nodes connected to its first entry,
/// its root; roots of different clusters are not connected; every node
/// appears in exactly one cluster, and the cluster sizes add up to the node
/// count; each root is the smallest index of its cluster, and clusters are
/// ordered by root.
pub open spec fn is_component_partition(g: SimilarityGraph, cs: Seq<Seq<usize>>) -> bool {
    &&& forall|c: int| 0 <= c < cs.len() ==> (#[trigger] cs[c]).len() >= 1
    &&& forall|c: int, k: int|
        0 <= c < cs.len() && 0 <= k < cs[c].len() ==> (#[trigger] cs[c][k]) < g.node_count()
    &&& forall|c: int, k: int|
        0 <= c < cs.len() && 0 <= k < cs[c].len() ==> connected(
            g,
            cs[c][0] as int,
            (#[trigger] cs[c][k]) as int,
        )
    &&& forall|c1: int, c2: int|
        0 <= c1 < c2 < cs.len() ==> !connected(
            g,
            (#[trigger] cs[c1])[0] as int,
            (#[trigger] cs[c2])[0] as int,
        )
    &&& cs.flatten().no_duplicates()
    &&& forall|j: int| 0 <= j < g.node_count() ==> cs.flatten().contains(#[trigger] (j as usize))
    &&& sum_lens(cs) == g.node_count()
    &&& forall|c: int, k: int|
        0 <= c < cs.len() && 0 <= k < cs[c].len() ==> cs[c][0] <= (#[trigger] cs[c][k])
    &&& forall|c1: int, c2: int|
        0 <= c1 < c2 < cs.len() ==> (#[trigger] cs[c1])[0] < (#[trigger] cs[c2])[0]
}

/// Group the nodes of `g` into connected components. Nodes are scanned in
/// index order; each unvisited node roots a new cluster holding every node
/// connected to it, in breadth-first discovery order. The clusters partition
/// the node set: the sum of the cluster sizes is the node count and no node
/// appears twice.
#[verifier::rlimit(100)]
pub fn find_cluster_indices(g: &SimilarityGraph) -> (r: Vec<Vec<usize>>)
    requires
        g.wf(),
    ensures
        is_component_partition(*g, r.deep_view()),
{
    let n = g.nodes.len();
    let mut visited: Vec<bool> = Vec::new();
    while visited.len() < n
        invariant
            visited@.len() <= n,
            forall|j: int| 0 <= j < visited@.len() ==> !(#[trigger] visited@[j]),
        decreases n - visited@.len(),
    {
        visited.push(false);
    }
    let mut clusters: Vec<Vec<usize>> = Vec::new();
    let mut root: usize = 0;
    proof {
        assert(clusters.deep_view() =~= Seq::<Seq<usize>>::empty());
        assert(clusters.deep_view().flatten() =~= Seq::<usize>::empty());
    }
    while root < n
        invariant
            root <= n,
            n == g.node_count(),
            g.wf(),
            visited@.len() == n,
            closed_under_edges(*g, visited@),
            forall|j: int| 0 <= j < root ==> visited@[j],
            forall|j: int|
                0 <= j < n ==> (visited@[j] <==> clusters.deep_view().flatten().contains(
                    #[trigger] (j as usize),
                )),
            clusters.deep_view().flatten().no_duplicates(),
            forall|k: int|
                0 <= k < clusters.deep_view().flatten().len()
                    ==> (#[trigger] clusters.deep_view().flatten()[k]) < n,
            sum_lens(clusters.deep_view()) == clusters.deep_view().flatten().len(),
            forall|c: int| 0 <= c < clusters.deep_view().len() ==> (#[trigger] clusters.deep_view()[c]).len() >= 1,
            forall|c: int, k: int|
                0 <= c < clusters.deep_view().len() && 0 <= k < clusters.deep_view()[c].len()
                    ==> (#[trigger] clusters.deep_view()[c][k]) < n,
            forall|c: int, k: int|
                0 <= c < clusters.deep_view().len() && 0 <= k < clusters.deep_view()[c].len()
                    ==> connected(
                    *g,
                    clusters.deep_view()[c][0] as int,
                    (#[trigger] clusters.deep_view()[c][k]) as int,
                ),
            forall|c: int, k: int|
                0 <= c < clusters.deep_view().len() && 0 <= k < clusters.deep_view()[c].len()
                    ==> clusters.deep_view()[c][0] <= (#[trigger] clusters.deep_view()[c][k]),
            forall|c: int| 0 <= c < clusters.deep_view().len() ==> (#[trigger] clusters.deep_view()[c])[0] < root,
            forall|c1: int, c2: int|
                0 <= c1 < c2 < clusters.deep_view().len() ==> (#[trigger] clusters.deep_view()[c1])[0]
                    < (#[trigger] clusters.deep_view()[c2])[0],
            forall|c1: int, c2: int|
                0 <= c1 < c2 < clusters.deep_view().len() ==> !connected(
                    *g,
                    (#[trigger] clusters.deep_view()[c1])[0] as int,
                    (#[trigger] clusters.deep_view()[c2])[0] as int,
                ),
        decreases n - root,
    {
        if !visited[root] {
            let ghost old_cs = clusters.deep_view();
            let ghost old_vis = visited@;
            let order = bfs_from(g, root, &mut visited);
            clusters.push(order);
            proof {
                lemma_connected_refl(*g, root as int);
                let cs = clusters.deep_view();
                assert(cs =~~= old_cs.push(order@));
                old_cs.lemma_flatten_push(order@);
                assert(cs.flatten() == old_cs.flatten() + order@);
                assert(cs.drop_last() =~= old_cs);
                // every new entry was unvisited, so it is absent from the old
                // clusters; the concatenation stays duplicate-free
                assert forall|k1: int, k2: int|
                    0 <= k1 < k2 < cs.flatten().len() implies cs.flatten()[k1]
                    != cs.flatten()[k2] by {
                    let f = old_cs.flatten();
                    if k2 >= f.len() {
                        if k1 >= f.len() {
                        } else {
                            let x = f[k1];
                            let j = x as int;
                            assert(x < n);
                            assert(f.contains(j as usize));
                            assert(old_vis[j]);
                            assert(!old_vis[order@[k2 - f.len()] as int]);
                        }
                    }
                }
                assert forall|j: int|
                    0 <= j < n implies (visited@[j] <==> cs.flatten().contains(
                    #[trigger] (j as usize),
                )) by {
                    let f = old_cs.flatten();
                    assert(visited@[j] <==> old_vis[j] || connected(*g, root as int, j));
                    if visited@[j] {
                        if old_vis[j] {
                            assert(f.contains(j as usize));
                            let k = choose|k: int| 0 <= k < f.len() && f[k] == j as usize;
                            assert(cs.flatten()[k] == j as usize);
                        } else {
                            assert(connected(*g, root as int, j));
                            assert(order@.contains(j as usize));
                            let k = choose|k: int| 0 <= k < order@.len() && order@[k] == j as usize;
                            assert(cs.flatten()[f.len() + k] == j as usize);
                        }
                    }
                    if cs.flatten().contains(j as usize) {
                        let k = choose|k: int|
                            0 <= k < cs.flatten().len() && cs.flatten()[k] == j as usize;
                        if k < f.len() {
                            assert(f[k] == j as usize);
                            assert(f.contains(j as usize));
                        } else {
                            assert(order@[k - f.len()] == j as usize);
                            assert(order@.contains(j as usize));
                        }
                    }
                }
                // the new root is not connected to any older root
                assert forall|c: int|
                    0 <= c < old_cs.len() implies !connected(
                    *g,
                    (#[trigger] old_cs[c])[0] as int,
                    root as int,
                ) by {
                    let r0 = old_cs[c][0];
                    assert(old_cs.flatten().contains(r0)) by {
                        lemma_flatten_index(old_cs, c, 0);
                        let pos = flatten_index(old_cs, c, 0);
                        assert(old_cs.flatten()[pos] == r0);
                    }
                    assert(old_vis[r0 as int]);
                    if connected(*g, r0 as int, root as int) {
                        lemma_connected_in_closed(*g, old_vis, r0 as int, root as int);
                    }
                }
                // new cluster entries sit at or above the root index
                assert forall|k: int|
                    0 <= k < order@.len() implies root <= (#[trigger] order@[k]) by {
                    assert(!old_vis[order@[k] as int]);
                }
                assert forall|j: int| 0 <= j < root + 1 implies visited@[j] by {
                    if j < root {
                        assert(old_vis[j]);
                        assert(visited@[j] <==> old_vis[j] || connected(*g, root as int, j));
                    } else {
                        assert(connected(*g, root as int, j));
                        assert(visited@[j] <==> old_vis[j] || connected(*g, root as int, j));
                    }
                }
            }
        }
        root += 1;
    }
    proof {
        let cs = clusters.deep_view();
        assert forall|j: int| 0 <= j < n implies cs.flatten().contains(#[trigger] (j as usize)) by {
            assert(visited@[j]);
        }
        lemma_distinct_covering_len(cs.flatten(), n as nat);
    }
    clusters
}

/// The position of entry `(c, k)` of `cs` within `cs.flatten()`.
spec fn flatten_index(cs: Seq<Seq<usize>>, c: int, k: int) -> int
    decreases c,
{
    if c <= 0 {
        k
    } else {
        cs[0].len() + flatten_index(cs.drop_first(), c - 1, k)
    }
}

/// Entry `(c, k)` of `cs` appears in `cs.flatten()` at `flatten_index`.
proof fn lemma_flatten_index(cs: Seq<Seq<usize>>, c: int, k: int)
    requires
        0 <= c < cs.len(),
        0 <= k < cs[c].len(),
    ensures
        0 <= flatten_index(cs, c, k) < cs.flatten().len(),
        cs.flatten()[flatten_index(cs, c, k)] == cs[c][k],
    decreases c,
{
    if c == 0 {
        assert(cs.flatten() == cs.first() + cs.drop_first().flatten());
    } else {
        lemma_flatten_index(cs.drop_first(), c - 1, k);
        assert(cs.flatten() == cs.first() + cs.drop_first().flatten());
    }
}

/// Whether the title clusters `ts` spell out the node-index clusters `ix`:
/// same shape, with each index replaced by that node's title.
pub open spec fn cluster_titles_match(
    g: SimilarityGraph,
    ix: Seq<Seq<usize>>,
    ts: Seq<Seq<Seq<char>>>,
) -> bool {
    &&& ts.len() == ix.len()
    &&& forall|c: int| 0 <= c < ix.len() ==> (#[trigger] ts[c]).len() == ix[c].len()
    &&& forall|c: int, k: int|
        0 <= c < ix.len() && 0 <= k < ix[c].len() ==> (#[trigger] ts[c][k]) == g.nodes@[ix[c][k] as int]@.title
}

/// Group the movies of `g` into clusters of titles: the connected components
/// of the graph, in root-index order, each listing its members' titles in
/// discovery order. Duplicate titles are kept: every node contributes one
/// entry to exactly one cluster.
pub fn find_clusters(g: &SimilarityGraph) -> (r: Vec<Vec<String>>)
    requires
        g.wf(),
    ensures
        exists|ix: Seq<Seq<usize>>|
            is_component_partition(*g, ix) && cluster_titles_match(*g, ix, r.deep_view()),
{
    let ix = find_cluster_indices(g);
    let mut r: Vec<Vec<String>> = Vec::new();
    let mut c: usize = 0;
    while c < ix.len()
        invariant
            c <= ix@.len(),
            g.wf(),
            is_component_partition(*g, ix.deep_view()),
            ix.deep_view().len() == ix@.len(),
            r.deep_view().len() == c,
            forall|c2: int|
                0 <= c2 < c ==> (#[trigger] r.deep_view()[c2]).len() == ix.deep_view()[c2].len(),
            forall|c2: int, k: int|
                0 <= c2 < c && 0 <= k < ix.deep_view()[c2].len()
                    ==> (#[trigger] r.deep_view()[c2][k]) == g.nodes@[ix.deep_view()[c2][k] as int]@.title,
        decreases ix@.len() - c,
    {
        let cluster = &ix[c];
        proof {
            assert forall|t: int| 0 <= t < cluster@.len() implies ix.deep_view()[c as int][t]
                == cluster@[t] by {}
        }
        let mut titles: Vec<String> = Vec::new();
        let mut k: usize = 0;
        while k < cluster.len()
            invariant
                k <= cluster@.len(),
                g.wf(),
                is_component_partition(*g, ix.deep_view()),
                0 <= c < ix.deep_view().len(),
                cluster@ == ix@[c as int]@,
                cluster@.len() == ix.deep_view()[c as int].len(),
                forall|t: int|
                    0 <= t < cluster@.len() ==> ix.deep_view()[c as int][t] == (#[trigger] cluster@[t]),
                titles.deep_view().len() == k,
                forall|t: int|
                    0 <= t < k ==> (#[trigger] titles.deep_view()[t]) == g.nodes@[cluster@[t] as int]@.title,
            decreases cluster@.len() - k,
        {
            let idx = cluster[k];
            proof {
                assert(ix.deep_view()[c as int][k as int] == cluster@[k as int]);
                assert(cluster@[k as int] < g.node_count());
            }
            let ghost old_titles = titles.deep_view();
            titles.push(g.nodes[idx].title.clone());
            proof {
                assert(titles.deep_view() =~= old_titles.push(g.nodes@[idx as int]@.title));
            }
            k += 1;
        }
        let ghost old_r = r.deep_view();
        r.push(titles);
        proof {
            assert(r.deep_view() =~= old_r.push(titles.deep_view()));
        }
        c += 1;
    }
    proof {
        let ixv = ix.deep_view();
        assert(is_component_partition(*g, ixv) && cluster_titles_match(*g, ixv, r.deep_view()));
    }
    r
}

/// Number of edges of `es`, among the first `k`, incident to node `i`.
pub open spec fn incident_count(es: Seq<(usize, usize, u64)>, i: int, k: int) -> int
    decreases k,
{
    if k <= 0 {
        0
    } else {
        incident_count(es, i, k - 1) + if es[k - 1].0 == i || es[k - 1].1 == i {
            1int
        } else {
            0
        }
    }
}

/// The degree of node `i`: the number of edges incident to it.
pub open spec fn degree(g: SimilarityGraph, i: int) -> int {
    incident_count(g.edges@, i, g.edges@.len() as int)
}

/// Degree centrality: for every node, in index order, its title and the
/// number of edges incident to it. Nodes sharing a title each keep their own
/// entry.
pub fn degree_centrality(g: &SimilarityGraph) -> (r: Vec<(String, usize)>)
    requires
        g.wf(),
    ensures
        r@.len() == g.node_count(),
        forall|i: int|
            0 <= i < g.node_count() ==> (#[trigger] r@[i]).0@ == g.nodes@[i]@.title && r@[i].1
                == degree(*g, i),
{
    let n = g.nodes.len();
    let mut r: Vec<(String, usize)> = Vec::new();
    let mut i: usize = 0;
    while i < n
        invariant
            i <= n,
            n == g.node_count(),
            g.wf(),
            r@.len() == i,
            forall|t: int|
                0 <= t < i ==> (#[trigger] r@[t]).0@ == g.nodes@[t]@.title && r@[t].1 == degree(
                    *g,
                    t,
                ),
        decreases n - i,
    {
        let mut count: usize = 0;
        let mut k: usize = 0;
        while k < g.edges.len()
            invariant
                k <= g.edges@.len(),
                count <= k,
                count == incident_count(g.edges@, i as int, k as int),
            decreases g.edges@.len() - k,
        {
            let e = g.edges[k];
            if e.0 == i || e.1 == i {
                count += 1;
            }
            k += 1;
        }
        r.push((g.nodes[i].title.clone(), count));
        i += 1;
    }
    r
}

/// The nodes below `upto`, other than `d`, from which `d` is reachable.
pub open spec fn reach_set_below(g: SimilarityGraph, d: int, upto: int) -> Set<int> {
    Set::new(|s: int| 0 <= s < upto && s != d && connected(g, s, d))
}

/// How many other nodes can reach node `d`.
pub open spec fn reach_count(g: SimilarityGraph, d: int) -> nat {
    reach_set_below(g, d, g.node_count() as int).len()
}

/// The reach set below `upto` is finite and no larger than `upto`.
proof fn lemma_reach_set_finite(g: SimilarityGraph, d: int, upto: int)
    requires
        0 <= upto,
    ensures
        reach_set_below(g, d, upto).finite(),
        reach_set_below(g, d, upto).len() <= upto,
{
    vstd::set_lib::lemma_int_range(0, upto);
    assert(reach_set_below(g, d, upto).subset_of(vstd::set_lib::set_int_range(0, upto)));
    vstd::set_lib::lemma_len_subset(
        reach_set_below(g, d, upto),
        vstd::set_lib::set_int_range(0, upto),
    );
}

/// Approximate betweenness centrality: for every node, in index order, its
/// title and the number of other nodes from which it can be reached. This is
/// a reachability count over uniform-cost shortest-path sweeps, not the
/// classical path-through measure. Nodes sharing a title each keep their own
/// entry.
pub fn betweenness_centrality(g: &SimilarityGraph) -> (r: Vec<(String, u64)>)
    requires
        g.wf(),
    ensures
        r@.len() == g.node_count(),
        forall|i: int|
            0 <= i < g.node_count() ==> (#[trigger] r@[i]).0@ == g.nodes@[i]@.title && r@[i].1
                == reach_count(*g, i),
{
    let n = g.nodes.len();
    let mut counts: Vec<u64> = Vec::new();
    while counts.len() < n
        invariant
            counts@.len() <= n,
            forall|d: int| 0 <= d < counts@.len() ==> (#[trigger] counts@[d]) == 0,
        decreases n - counts@.len(),
    {
        counts.push(0);
    }
    proof {
        assert forall|d: int| 0 <= d < n implies reach_set_below(*g, d, 0).len() == 0 by {
            assert(reach_set_below(*g, d, 0) =~= Set::<int>::empty());
        }
    }
    let mut src: usize = 0;
    while src < n
        invariant
            src <= n,
            n == g.node_count(),
            g.wf(),
            counts@.len() == n,
            forall|d: int|
                0 <= d < n ==> (#[trigger] counts@[d]) == reach_set_below(
                    *g,
                    d,
                    src as int,
                ).len(),
        decreases n - src,
    {
        let mut visited: Vec<bool> = Vec::new();
        while visited.len() < n
            invariant
                visited@.len() <= n,
                forall|j: int| 0 <= j < visited@.len() ==> !(#[trigger] visited@[j]),
            decreases n - visited@.len(),
        {
            visited.push(false);
        }
        let order = bfs_from(g, src, &mut visited);
        let ghost base = counts@;
        let mut t: usize = 0;
        while t < order.len()
            invariant
                t <= order@.len(),
                n == g.node_count(),
                g.wf(),
                src < n,
                counts@.len() == n,
                base.len() == n,
                order@.no_duplicates(),
                forall|k: int| 0 <= k < order@.len() ==> (#[trigger] order@[k]) < n,
                forall|d: int| 0 <= d < n ==> (#[trigger] base[d]) == reach_set_below(
                    *g,
                    d,
                    src as int,
                ).len(),
                forall|d: int|
                    0 <= d < n ==> (#[trigger] counts@[d]) == base[d] + (
                    if order@.take(t as int).contains(d as usize) && d != src {
                        1int
                    } else {
                        0
                    }),
            decreases order@.len() - t,
        {
            let dst = order[t];
            let ghost old_counts = counts@;
            if dst != src {
                proof {
                    lemma_reach_set_finite(*g, dst as int, src as int);
                    assert(counts@[dst as int] <= src) by {
                        assert(!order@.take(t as int).contains(dst as usize)) by {
                            if order@.take(t as int).contains(dst as usize) {
                                let q = choose|q: int|
                                    0 <= q < t && order@.take(t as int)[q] == dst as usize;
                                assert(order@[q] == order@[t as int]);
                            }
                        }
                    }
                }
                let c = counts[dst];
                counts.set(dst, c + 1);
            }
            proof {
                assert(order@.take(t + 1) =~= order@.take(t as int).push(order@[t as int]));
                assert forall|d: int|
                    0 <= d < n implies (#[trigger] counts@[d]) == base[d] + (
                    if order@.take(t + 1).contains(d as usize) && d != src {
                        1int
                    } else {
                        0
                    }) by {
                    vstd::seq_lib::lemma_seq_contains_after_push(
                        order@.take(t as int),
                        order@[t as int],
                        d as usize,
                    );
                    if d == dst as int && dst != src {
                        assert(!order@.take(t as int).contains(dst as usize)) by {
                            if order@.take(t as int).contains(dst as usize) {
                                let q = choose|q: int|
                                    0 <= q < t && order@.take(t as int)[q] == dst as usize;
                                assert(order@[q] == order@[t as int]);
                            }
                        }
                    }
                }
            }
            t += 1;
        }
        proof {
            assert(order@.take(order@.len() as int) =~= order@);
            assert forall|d: int|
                0 <= d < n implies (#[trigger] counts@[d]) == reach_set_below(
                *g,
                d,
                src + 1,
            ).len() by {
                lemma_reach_set_finite(*g, d, src as int);
                let below = reach_set_below(*g, d, src as int);
                if connected(*g, src as int, d) && d != src {
                    lemma_connected_sym(*g, src as int, d);
                    assert(order@.contains(d as usize));
                    assert(reach_set_below(*g, d, src + 1) =~= below.insert(src as int));
                } else {
                    if order@.contains(d as usize) && d != src {
                        assert(connected(*g, src as int, d));
                    }
                    assert forall|s: int|
                        reach_set_below(*g, d, src + 1).contains(s) implies below.contains(
                        s,
                    ) by {
                        if s == src {
                            lemma_connected_sym(*g, s, d);
                        }
                    }
                    assert(reach_set_below(*g, d, src + 1) =~= below);
                }
            }
        }
        src += 1;
    }
    let mut r: Vec<(String, u64)> = Vec::new();
    let mut i: usize = 0;
    while i < n
        invariant
            i <= n,
            n == g.node_count(),
            g.wf(),
            counts@.len() == n,
            forall|d: int| 0 <= d < n ==> (#[trigger] counts@[d]) == reach_count(*g, d),
            r@.len() == i,
            forall|t: int|
                0 <= t < i ==> (#[trigger] r@[t]).0@ == g.nodes@[t]@.title && r@[t].1
                    == reach_count(*g, t),
        decreases n - i,
    {
        r.push((g.nodes[i].title.clone(), counts[i]));
        i += 1;
    }
    r
}

/// The distinct keys of a keyed list of score gaps, in first-occurrence
/// order.
pub open spec fn agg_keys<K>(occ: Seq<(K, int)>) -> Seq<K>
    decreases occ.len(),
{
    if occ.len() == 0 {
        Seq::empty()
    } else {
        let prev = agg_keys(occ.drop_last());
        if prev.contains(occ.last().0) {
            prev
        } else {
            prev.push(occ.last().0)
        }
    }
}

/// The sum of the gaps recorded under `key`.
pub open spec fn agg_sum<K>(occ: Seq<(K, int)>, key: K) -> int
    decreases occ.len(),
{
    if occ.len() == 0 {
        0
    } else {
        agg_sum(occ.drop_last(), key) + if occ.last().0 == key {
            occ.last().1
        } else {
            0
        }
    }
}

/// The number of gaps recorded under `key`.
pub open spec fn agg_count<K>(occ: Seq<(K, int)>, key: K) -> int
    decreases occ.len(),
{
    if occ.len() == 0 {
        0
    } else {
        agg_count(occ.drop_last(), key) + if occ.last().0 == key {
            1int
        } else {
            0
        }
    }
}

/// Whether every recorded gap fits in 32 bits.
pub open spec fn occ_bounded<K>(occ: Seq<(K, int)>) -> bool {
    forall|t: int| 0 <= t < occ.len() ==> -0x8000_0000 <= (#[trigger] occ[t]).1 <= 0x7FFF_FFFF
}

/// A key's count never exceeds the number of occurrences.
proof fn lemma_agg_count_bound<K>(occ: Seq<(K, int)>, key: K)
    ensures
        0 <= agg_count(occ, key) <= occ.len(),
    decreases occ.len(),
{
    if occ.len() == 0 {
    } else {
        lemma_agg_count_bound(occ.drop_last(), key);
    }
}

/// A key's sum is bounded by the number of occurrences times the largest
/// 32-bit magnitude.
proof fn lemma_agg_sum_bound<K>(occ: Seq<(K, int)>, key: K)
    requires
        occ_bounded(occ),
    ensures
        -(occ.len() * 0x8000_0000) <= agg_sum(occ, key) <= occ.len() * 0x8000_0000,
    decreases occ.len(),
{
    if occ.len() == 0 {
    } else {
        assert(occ_bounded(occ.drop_last())) by {
            assert(forall|t: int|
                0 <= t < occ.len() - 1 ==> occ.drop_last()[t] == (#[trigger] occ[t]));
        }
        lemma_agg_sum_bound(occ.drop_last(), key);
        assert(-0x8000_0000 <= occ.last().1 <= 0x7FFF_FFFF);
    }
}

/// A key that never occurs has zero sum and zero count.
proof fn lemma_agg_absent_zero<K>(occ: Seq<(K, int)>, key: K)
    requires
        !agg_keys(occ).contains(key),
    ensures
        agg_sum(occ, key) == 0,
        agg_count(occ, key) == 0,
    decreases occ.len(),
{
    if occ.len() == 0 {
    } else {
        let prev = agg_keys(occ.drop_last());
        assert(!prev.contains(key)) by {
            if prev.contains(key) {
                let t = choose|t: int| 0 <= t < prev.len() && prev[t] == key;
                if prev.contains(occ.last().0) {
                    assert(agg_keys(occ)[t] == key);
                } else {
                    assert(agg_keys(occ)[t] == key);
                }
            }
        }
        lemma_agg_absent_zero(occ.drop_last(), key);
        assert(occ.last().0 != key) by {
            if occ.last().0 == key {
                if prev.contains(occ.last().0) {
                } else {
                    assert(agg_keys(occ).last() == key);
                }
            }
        }
    }
}

/// A key that occurs is counted at least once.
proof fn lemma_agg_present_count_pos<K>(occ: Seq<(K, int)>, key: K)
    requires
        agg_keys(occ).contains(key),
    ensures
        agg_count(occ, key) >= 1,
    decreases occ.len(),
{
    lemma_agg_count_bound(occ.drop_last(), key);
    if occ.len() == 0 {
    } else {
        let prev = agg_keys(occ.drop_last());
        if occ.last().0 == key {
        } else {
            assert(prev.contains(key)) by {
                let t = choose|t: int|
                    0 <= t < agg_keys(occ).len() && agg_keys(occ)[t] == key;
                if prev.contains(occ.last().0) {
                } else {
                    assert(t < prev.len()) by {
                        if t == prev.len() {
                            assert(agg_keys(occ)[t] == occ.last().0);
                        }
                    }
                    assert(prev[t] == key);
                }
            }
            lemma_agg_present_count_pos(occ.drop_last(), key);
        }
    }
}

/// The distinct keys are distinct.
proof fn lemma_agg_keys_no_dup<K>(occ: Seq<(K, int)>)
    ensures
        agg_keys(occ).no_duplicates(),
    decreases occ.len(),
{
    if occ.len() == 0 {
    } else {
        lemma_agg_keys_no_dup(occ.drop_last());
        let prev = agg_keys(occ.drop_last());
        if prev.contains(occ.last().0) {
        } else {
            assert forall|t1: int, t2: int|
                0 <= t1 < t2 < agg_keys(occ).len() implies agg_keys(occ)[t1] != agg_keys(
                occ,
            )[t2] by {
                if t2 == agg_keys(occ).len() - 1 {
                    assert(agg_keys(occ)[t1] == prev[t1]);
                    assert(prev.contains(prev[t1]));
                }
            }
        }
    }
}

/// The decade bucket of a release year: the year rounded down to a multiple
/// of ten.
pub open spec fn decade_of(y: u16) -> int {
    (y / 10) * 10
}

/// One keyed gap per movie: its decade bucket and its score gap.
pub open spec fn decade_occurrences(ms: Seq<CleanMovieView>) -> Seq<(int, int)> {
    ms.map_values(|m: CleanMovieView| (decade_of(m.year), m.score_gap as int))
}

/// The keyed gaps a single movie contributes, one per genre entry: a movie
/// tagged with several genres contributes its full gap once per entry.
pub open spec fn genre_pairs(m: CleanMovieView) -> Seq<(Seq<char>, int)> {
    m.genres.map_values(|gn: Seq<char>| (gn, m.score_gap as int))
}

/// All keyed gaps of a list of movies, by genre entry, in input order.
pub open spec fn genre_occurrences(ms: Seq<CleanMovieView>) -> Seq<(Seq<char>, int)> {
    ms.map_values(|m: CleanMovieView| genre_pairs(m)).flatten()
}

/// The average score gap of one group of movies, as an exact rational:
/// the sum of the gaps, in hundredths of a point, over the number of gaps.
pub struct DecadeGap {
    /// The decade bucket, a year rounded down to a multiple of ten.
    pub decade: u16,
    /// Sum of the score gaps of the decade's movies, in hundredths.
    pub gap_sum: i128,
    /// Number of movies in the decade; always at least one.
    pub movie_count: u64,
}

/// The average score gap of the movies tagged with one genre, as an exact
/// rational: the sum of the contributed gaps over their number. A movie
/// tagged with a genre twice contributes twice.
pub struct GenreGap {
    /// The genre name.
    pub genre: String,
    /// Sum of the contributed score gaps, in hundredths.
    pub gap_sum: i128,
    /// Number of contributed gaps; always at least one.
    pub movie_count: u64,
}

/// Whether the table `t` aggregates exactly the keyed gaps `occ`: one row
/// per distinct decade in first-occurrence order, carrying that decade's gap
/// sum and count.
pub open spec fn decade_table_matches(t: Seq<DecadeGap>, occ: Seq<(int, int)>) -> bool {
    &&& t.map_values(|e: DecadeGap| e.decade as int) == agg_keys(occ)
    &&& forall|c: int|
        0 <= c < t.len() ==> (#[trigger] t[c]).gap_sum == agg_sum(occ, t[c].decade as int)
    &&& forall|c: int|
        0 <= c < t.len() ==> (#[trigger] t[c]).movie_count == agg_count(occ, t[c].decade as int)
}

/// Whether the table `t` aggregates exactly the keyed gaps `occ`: one row
/// per distinct genre in first-occurrence order, carrying that genre's gap
/// sum and count.
pub open spec fn genre_table_matches(t: Seq<GenreGap>, occ: Seq<(Seq<char>, int)>) -> bool {
    &&& t.map_values(|e: GenreGap| e.genre@) == agg_keys(occ)
    &&& forall|c: int| 0 <= c < t.len() ==> (#[trigger] t[c]).gap_sum == agg_sum(occ, t[c].genre@)
    &&& forall|c: int|
        0 <= c < t.len() ==> (#[trigger] t[c]).movie_count == agg_count(occ, t[c].genre@)
}

/// Record one decade-keyed gap into the running table.
fn record_decade(table: &mut Vec<DecadeGap>, decade: u16, gap: i32, Ghost(occ): Ghost<Seq<(int, int)>>)
    requires
        decade_table_matches(old(table)@, occ),
        occ_bounded(occ),
        occ.len() < 0xFFFF_FFFF_FFFF_FFFF,
    ensures
        decade_table_matches(final(table)@, occ.push((decade as int, gap as int))),
{
    proof {
        lemma_agg_keys_no_dup(occ);
        assert(occ.push((decade as int, gap as int)).drop_last() =~= occ);
    }
    let ghost occ2 = occ.push((decade as int, gap as int));
    let ghost keyf = |e: DecadeGap| e.decade as int;
    let mut idx: usize = 0;
    while idx < table.len()
        invariant
            idx <= table@.len(),
            decade_table_matches(table@, occ),
            occ_bounded(occ),
            occ.len() < 0xFFFF_FFFF_FFFF_FFFF,
            keyf == (|e: DecadeGap| e.decade as int),
            occ2 == occ.push((decade as int, gap as int)),
            forall|c: int| 0 <= c < idx ==> (#[trigger] table@[c]).decade != decade,
        decreases table@.len() - idx,
    {
        if table[idx].decade == decade {
            let s0 = table[idx].gap_sum;
            let c0 = table[idx].movie_count;
            proof {
                lemma_agg_keys_no_dup(occ);
                assert(occ2.drop_last() =~= occ);
                assert(table@[idx as int].gap_sum == agg_sum(occ, decade as int));
                assert(table@[idx as int].movie_count == agg_count(occ, decade as int));
                lemma_agg_sum_bound(occ, decade as int);
                lemma_agg_count_bound(occ, decade as int);
            }
            let ghost old_table = table@;
            table.set(
                idx,
                DecadeGap { decade, gap_sum: s0 + gap as i128, movie_count: c0 + 1 },
            );
            proof {
                assert(table@.map_values(keyf) =~= old_table.map_values(keyf));
                assert(old_table.map_values(keyf) == agg_keys(occ));
                assert(agg_keys(occ).contains(decade as int)) by {
                    assert(old_table.map_values(keyf)[idx as int] == decade as int);
                }
                assert(agg_keys(occ2) == agg_keys(occ));
                assert forall|c: int| 0 <= c < table@.len() implies (#[trigger] table@[c]).gap_sum
                    == agg_sum(occ2, table@[c].decade as int) && table@[c].movie_count
                    == agg_count(occ2, table@[c].decade as int) by {
                    if c != idx {
                        assert(table@[c] == old_table[c]);
                        assert(old_table.map_values(keyf)[c] == table@[c].decade as int);
                        assert(agg_keys(occ).no_duplicates());
                        assert(table@[c].decade as int != decade as int);
                    }
                }
            }
            return ;
        }
        idx += 1;
    }
    proof {
        lemma_agg_keys_no_dup(occ);
        assert(occ2.drop_last() =~= occ);
        assert(!agg_keys(occ).contains(decade as int)) by {
            if agg_keys(occ).contains(decade as int) {
                let c = choose|c: int|
                    0 <= c < agg_keys(occ).len() && agg_keys(occ)[c] == decade as int;
                assert(table@.map_values(keyf)[c] == decade as int);
                assert(table@[c].decade == decade);
            }
        }
        lemma_agg_absent_zero(occ, decade as int);
    }
    let ghost old_table = table@;
    table.push(DecadeGap { decade, gap_sum: gap as i128, movie_count: 1 });
    proof {
        assert(agg_keys(occ2) == agg_keys(occ).push(decade as int));
        assert(table@.map_values(keyf) =~= old_table.map_values(keyf).push(decade as int));
        assert forall|c: int| 0 <= c < table@.len() implies (#[trigger] table@[c]).gap_sum
            == agg_sum(occ2, table@[c].decade as int) && table@[c].movie_count == agg_count(
            occ2,
            table@[c].decade as int,
        ) by {
            if c < old_table.len() {
                assert(table@[c] == old_table[c]);
                assert(old_table.map_values(keyf)[c] == table@[c].decade as int);
                assert(agg_keys(occ).contains(table@[c].decade as int));
                assert(table@[c].decade as int != decade as int);
            }
        }
    }
}

/// Record one genre-keyed gap into the running table.
fn record_genre(
    table: &mut Vec<GenreGap>,
    genre: &String,
    gap: i32,
    Ghost(occ): Ghost<Seq<(Seq<char>, int)>>,
)
    requires
        genre_table_matches(old(table)@, occ),
        occ_bounded(occ),
        occ.len() < 0xFFFF_FFFF_FFFF_FFFF,
    ensures
        genre_table_matches(final(table)@, occ.push((genre@, gap as int))),
{
    proof {
        lemma_agg_keys_no_dup(occ);
        assert(occ.push((genre@, gap as int)).drop_last() =~= occ);
    }
    let ghost occ2 = occ.push((genre@, gap as int));
    let ghost keyf = |e: GenreGap| e.genre@;
    let mut idx: usize = 0;
    while idx < table.len()
        invariant
            idx <= table@.len(),
            genre_table_matches(table@, occ),
            occ_bounded(occ),
            occ.len() < 0xFFFF_FFFF_FFFF_FFFF,
            keyf == (|e: GenreGap| e.genre@),
            occ2 == occ.push((genre@, gap as int)),
            forall|c: int| 0 <= c < idx ==> (#[trigger] table@[c]).genre@ != genre@,
        decreases table@.len() - idx,
    {
        if table[idx].genre.eq(genre) {
            let g0 = table[idx].genre.clone();
            let s0 = table[idx].gap_sum;
            let c0 = table[idx].movie_count;
            proof {
                lemma_agg_keys_no_dup(occ);
                assert(occ2.drop_last() =~= occ);
                assert(table@[idx as int].gap_sum == agg_sum(occ, genre@));
                assert(table@[idx as int].movie_count == agg_count(occ, genre@));
                lemma_agg_sum_bound(occ, genre@);
                lemma_agg_count_bound(occ, genre@);
            }
            let ghost old_table = table@;
            table.set(idx, GenreGap { genre: g0, gap_sum: s0 + gap as i128, movie_count: c0 + 1 });
            proof {
                assert(table@.map_values(keyf) =~= old_table.map_values(keyf));
                assert(old_table.map_values(keyf) == agg_keys(occ));
                assert(agg_keys(occ).contains(genre@)) by {
                    assert(old_table.map_values(keyf)[idx as int] == genre@);
                }
                assert(agg_keys(occ2) == agg_keys(occ));
                assert forall|c: int| 0 <= c < table@.len() implies (#[trigger] table@[c]).gap_sum
                    == agg_sum(occ2, table@[c].genre@) && table@[c].movie_count == agg_count(
                    occ2,
                    table@[c].genre@,
                ) by {
                    if c != idx {
                        assert(table@[c] == old_table[c]);
                        assert(old_table.map_values(keyf)[c] == table@[c].genre@);
                        assert(agg_keys(occ).no_duplicates());
                        assert(table@[c].genre@ != genre@);
                    }
                }
            }
            return ;
        }
        idx += 1;
    }
    proof {
        lemma_agg_keys_no_dup(occ);
        assert(occ2.drop_last() =~= occ);
        assert(!agg_keys(occ).contains(genre@)) by {
            if agg_keys(occ).contains(genre@) {
                let c = choose|c: int| 0 <= c < agg_keys(occ).len() && agg_keys(occ)[c] == genre@;
                assert(table@.map_values(keyf)[c] == genre@);
            }
        }
        lemma_agg_absent_zero(occ, genre@);
    }
    let ghost old_table = table@;
    table.push(GenreGap { genre: genre.clone(), gap_sum: gap as i128, movie_count: 1 });
    proof {
        assert(agg_keys(occ2) == agg_keys(occ).push(genre@));
        assert(table@.map_values(keyf) =~= old_table.map_values(keyf).push(genre@));
        assert forall|c: int| 0 <= c < table@.len() implies (#[trigger] table@[c]).gap_sum
            == agg_sum(occ2, table@[c].genre@) && table@[c].movie_count == agg_count(
            occ2,
            table@[c].genre@,
        ) by {
            if c < old_table.len() {
                assert(table@[c] == old_table[c]);
                assert(old_table.map_values(keyf)[c] == table@[c].genre@);
                assert(agg_keys(occ).contains(table@[c].genre@));
                assert(table@[c].genre@ != genre@);
            }
        }
    }
}

/// Average score gap by decade: one row per decade that occurs among the
/// movies, in first-occurrence order, with the decade's exact gap sum and
/// movie count. A decade appears only when at least one movie falls in it,
/// so the average `gap_sum / movie_count` never divides by zero.
pub fn average_score_gap_by_decade(movies: &Vec<CleanMovie>) -> (r: Vec<DecadeGap>)
    ensures
        decade_table_matches(r@, decade_occurrences(clean_views(movies@))),
        forall|c: int| 0 <= c < r@.len() ==> (#[trigger] r@[c]).movie_count >= 1,
{
    let ghost views = clean_views(movies@);
    let mut table: Vec<DecadeGap> = Vec::new();
    proof {
        assert(views.take(0) =~= Seq::<CleanMovieView>::empty());
        assert(decade_occurrences(views.take(0)) =~= Seq::<(int, int)>::empty());
        assert(table@.map_values(|e: DecadeGap| e.decade as int) =~= Seq::<int>::empty());
        assert(agg_keys(decade_occurrences(views.take(0))) =~= Seq::<int>::empty());
    }
    let mut i: usize = 0;
    while i < movies.len()
        invariant
            i <= movies@.len(),
            views == clean_views(movies@),
            decade_table_matches(table@, decade_occurrences(views.take(i as int))),
            decade_occurrences(views.take(i as int)).len() == i,
            occ_bounded(decade_occurrences(views.take(i as int))),
        decreases movies@.len() - i,
    {
        let ghost occ = decade_occurrences(views.take(i as int));
        let m = &movies[i];
        let d: u16 = (m.year / 10) * 10;
        proof {
            assert(views.take(i + 1) =~= views.take(i as int).push(views[i as int]));
            assert(decade_occurrences(views.take(i + 1)) =~= occ.push(
                (decade_of(views[i as int].year), views[i as int].score_gap as int),
            ));
            assert(views[i as int] == movies@[i as int]@);
            assert(d as int == decade_of(views[i as int].year));
        }
        record_decade(&mut table, d, m.score_gap, Ghost(occ));
        proof {
            let occn = decade_occurrences(views.take(i + 1));
            assert(occn == occ.push((d as int, m.score_gap as int)));
            assert(occ_bounded(occn)) by {
                assert(forall|t: int| 0 <= t < occ.len() ==> occn[t] == (#[trigger] occ[t]));
                assert(occn.last().1 == m.score_gap as int);
            }
        }
        i += 1;
    }
    proof {
        assert(views.take(movies@.len() as int) =~= views);
        assert forall|c: int| 0 <= c < table@.len() implies (#[trigger] table@[c]).movie_count
            >= 1 by {
            let occ = decade_occurrences(views);
            assert(agg_keys(occ).contains(table@[c].decade as int)) by {
                assert(table@.map_values(|e: DecadeGap| e.decade as int)[c]
                    == table@[c].decade as int);
            }
            lemma_agg_present_count_pos(occ, table@[c].decade as int);
        }
    }
    table
}

/// Extending the movie list by one movie appends its genre-keyed gaps.
proof fn lemma_genre_occ_step(ms: Seq<CleanMovieView>, i: int)
    requires
        0 <= i < ms.len(),
    ensures
        genre_occurrences(ms.take(i + 1)) == genre_occurrences(ms.take(i)) + genre_pairs(ms[i]),
{
    assert(ms.take(i + 1) =~= ms.take(i).push(ms[i]));
    let f = |m: CleanMovieView| genre_pairs(m);
    assert(ms.take(i + 1).map_values(f) =~= ms.take(i).map_values(f).push(genre_pairs(ms[i])));
    ms.take(i).map_values(f).lemma_flatten_push(genre_pairs(ms[i]));
}

/// A prefix of the movie list contributes no more genre-keyed gaps than the
/// whole list.
proof fn lemma_genre_occ_prefix_len(ms: Seq<CleanMovieView>, i: int)
    requires
        0 <= i <= ms.len(),
    ensures
        genre_occurrences(ms.take(i)).len() <= genre_occurrences(ms).len(),
    decreases ms.len() - i,
{
    if i == ms.len() {
        assert(ms.take(i) =~= ms);
    } else {
        lemma_genre_occ_step(ms, i);
        lemma_genre_occ_prefix_len(ms, i + 1);
    }
}

/// Average score gap by genre: one row per distinct genre name occurring
/// among the movies, in first-occurrence order, with the genre's exact gap
/// sum and count of contributions. A movie tagged with several genres
/// contributes its full gap to each of them; a genre appears only when at
/// least one movie contributes to it, so the average `gap_sum / movie_count`
/// never divides by zero.
pub fn average_score_gap_by_genre(movies: &Vec<CleanMovie>) -> (r: Vec<GenreGap>)
    requires
        genre_occurrences(clean_views(movies@)).len() <= 0xFFFF_FFFF_FFFF_FFFF,
    ensures
        genre_table_matches(r@, genre_occurrences(clean_views(movies@))),
        forall|c: int| 0 <= c < r@.len() ==> (#[trigger] r@[c]).movie_count >= 1,
{
    let ghost views = clean_views(movies@);
    let mut table: Vec<GenreGap> = Vec::new();
    proof {
        assert(views.take(0) =~= Seq::<CleanMovieView>::empty());
        assert(views.take(0).map_values(|m: CleanMovieView| genre_pairs(m)) =~= Seq::<
            Seq<(Seq<char>, int)>,
        >::empty());
        assert(genre_occurrences(views.take(0)) =~= Seq::<(Seq<char>, int)>::empty());
        assert(table@.map_values(|e: GenreGap| e.genre@) =~= Seq::<Seq<char>>::empty());
        assert(agg_keys(genre_occurrences(views.take(0))) =~= Seq::<Seq<char>>::empty());
    }
    let mut i: usize = 0;
    while i < movies.len()
        invariant
            i <= movies@.len(),
            views == clean_views(movies@),
            genre_occurrences(views).len() <= 0xFFFF_FFFF_FFFF_FFFF,
            genre_table_matches(table@, genre_occurrences(views.take(i as int))),
            occ_bounded(genre_occurrences(views.take(i as int))),
        decreases movies@.len() - i,
    {
        let ghost occ0 = genre_occurrences(views.take(i as int));
        let m = &movies[i];
        let ghost pairs = genre_pairs(views[i as int]);
        proof {
            lemma_genre_occ_step(views, i as int);
            lemma_genre_occ_prefix_len(views, i + 1);
            assert(views[i as int] == movies@[i as int]@);
            assert(pairs.len() == m.genres@.len());
            assert(pairs.take(0) =~= Seq::<(Seq<char>, int)>::empty());
            assert(occ0 + pairs.take(0) =~= occ0);
        }
        let mut k: usize = 0;
        while k < m.genres.len()
            invariant
                k <= m.genres@.len(),
                views == clean_views(movies@),
                0 <= i < movies@.len(),
                m == movies@[i as int],
                views[i as int] == movies@[i as int]@,
                pairs == genre_pairs(views[i as int]),
                pairs.len() == m.genres@.len(),
                genre_occurrences(views).len() <= 0xFFFF_FFFF_FFFF_FFFF,
                occ0 == genre_occurrences(views.take(i as int)),
                occ0.len() + pairs.len() <= genre_occurrences(views).len(),
                occ_bounded(occ0),
                genre_table_matches(table@, occ0 + pairs.take(k as int)),
                occ_bounded(occ0 + pairs.take(k as int)),
            decreases m.genres@.len() - k,
        {
            let ghost occ = occ0 + pairs.take(k as int);
            proof {
                assert(occ.len() == occ0.len() + k);
                assert(occ.len() < 0xFFFF_FFFF_FFFF_FFFF || occ.len() + 1
                    <= genre_occurrences(views).len());
                assert(pairs[k as int] == (m.genres@[k as int]@, m.score_gap as int));
                assert(occ0 + pairs.take(k + 1) =~= occ.push(pairs[k as int]));
            }
            record_genre(&mut table, &m.genres[k], m.score_gap, Ghost(occ));
            proof {
                let occn = occ0 + pairs.take(k + 1);
                assert(occn == occ.push((m.genres@[k as int]@, m.score_gap as int)));
                assert(occ_bounded(occn)) by {
                    assert(forall|t: int| 0 <= t < occ.len() ==> occn[t] == (#[trigger] occ[t]));
                    assert(occn.last().1 == m.score_gap as int);
                }
            }
            k += 1;
        }
        proof {
            assert(pairs.take(pairs.len() as int) =~= pairs);
            assert(occ0 + pairs == genre_occurrences(views.take(i + 1))) by {
                lemma_genre_occ_step(views, i as int);
            }
        }
        i += 1;
    }
    proof {
        assert(views.take(movies@.len() as int) =~= views);
        assert forall|c: int| 0 <= c < table@.len() implies (#[trigger] table@[c]).movie_count
            >= 1 by {
            let occ = genre_occurrences(views);
            assert(agg_keys(occ).contains(table@[c].genre@)) by {
                assert(table@.map_values(|e: GenreGap| e.genre@)[c] == table@[c].genre@);
            }
            lemma_agg_present_count_pos(occ, table@[c].genre@);
        }
    }
    table
}

} // verus!

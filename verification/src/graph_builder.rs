//! Construction of the movie similarity graph.
//!
//! Nodes are projections of clean movie records, in input order; an
//! undirected edge connects two movies whenever the weighted sum of their
//! genre-overlap similarity and their score-pattern similarity reaches the
//! threshold. Weights are fixed-point integers in `WEIGHT_SCALE` units, so
//! edge weights and the threshold are in units of
//! `WEIGHT_SCALE * SIM_SCALE`, that is, billionths.

use vstd::prelude::*;

verus! {

use crate::data_cleaning::{CleanMovie, CleanMovieView, clean_views};
use crate::similarity::{
    SIM_SCALE, cosine_scaled, cosine_similarity, genre_jaccard, jaccard_scaled,
};

/// Denominator of the fixed-point similarity weights: a weight of 1.0 is
/// `WEIGHT_SCALE`.
pub const WEIGHT_SCALE: u64 = 1_000;

/// Largest accepted fixed-point weight; keeps every combined similarity
/// within `u64` range.
pub const MAX_WEIGHT: u64 = 1_000_000_000_000;

/// A node of the similarity graph: a read-only projection of a clean movie
/// record, with the score gap dropped.
pub struct MovieNode {
    pub title: String,
    pub year: u16,
    pub genres: Vec<String>,
    pub critic_score: u16,
    pub user_score: u16,
}

/// Mathematical model of a graph node.
pub struct MovieNodeView {
    pub title: Seq<char>,
    pub year: u16,
    pub genres: Seq<Seq<char>>,
    pub critic_score: u16,
    pub user_score: u16,
}

impl View for MovieNode {
    type V = MovieNodeView;

    open spec fn view(&self) -> MovieNodeView {
        MovieNodeView {
            title: self.title@,
            year: self.year,
            genres: self.genres.deep_view(),
            critic_score: self.critic_score,
            user_score: self.user_score,
        }
    }
}

/// The node that stands for a clean movie record.
pub open spec fn node_of(m: CleanMovieView) -> MovieNodeView {
    MovieNodeView {
        title: m.title,
        year: m.year,
        genres: m.genres,
        critic_score: m.critic_score,
        user_score: m.user_score,
    }
}

/// Combined similarity of two movies, in `WEIGHT_SCALE * SIM_SCALE` units:
/// the genre weight times the Jaccard similarity of the genre sets, plus the
/// score weight times the cosine similarity of the score vectors.
pub open spec fn node_similarity(a: MovieNodeView, b: MovieNodeView, gw: u64, sw: u64) -> int {
    gw * jaccard_scaled(a.genres, b.genres) + sw * cosine_scaled(
        a.critic_score as nat,
        a.user_score as nat,
        b.critic_score as nat,
        b.user_score as nat,
    )
}

/// Strict lexicographic order on canonical edges, by endpoints.
pub open spec fn edge_lt(a: (usize, usize, u64), b: (usize, usize, u64)) -> bool {
    a.0 < b.0 || (a.0 == b.0 && a.1 < b.1)
}

/// Whether edge `e` joins nodes `i` and `j`, in either orientation.
pub open spec fn edge_connects(e: (usize, usize, u64), i: int, j: int) -> bool {
    (e.0 == i && e.1 == j) || (e.0 == j && e.1 == i)
}

/// Whether some edge of `es` joins nodes `i` and `j`.
pub open spec fn edges_connect(es: Seq<(usize, usize, u64)>, i: int, j: int) -> bool {
    exists|k: int| 0 <= k < es.len() && edge_connects(#[trigger] es[k], i, j)
}

/// An undirected edge-weighted graph over movie nodes. Node identity is
/// positional: the node index is the position of the movie in the input.
/// Each edge is stored once, as `(i, j, weight)` with `i < j`.
pub struct SimilarityGraph {
    pub nodes: Vec<MovieNode>,
    pub edges: Vec<(usize, usize, u64)>,
}

impl SimilarityGraph {
    /// Number of nodes.
    pub open spec fn node_count(self) -> nat {
        self.nodes@.len()
    }

    /// The edge list is canonical: every edge has ordered in-range endpoints
    /// and the list is strictly sorted, so there are no self-loops and no
    /// pair of nodes is joined twice.
    pub open spec fn wf(self) -> bool {
        &&& forall|k: int|
            0 <= k < self.edges@.len() ==> (#[trigger] self.edges@[k]).0 < self.edges@[k].1
                < self.node_count()
        &&& forall|k1: int, k2: int|
            0 <= k1 < k2 < self.edges@.len() ==> edge_lt(
                #[trigger] self.edges@[k1],
                #[trigger] self.edges@[k2],
            )
    }

    /// Whether nodes `i` and `j` are joined by an edge.
    pub open spec fn has_edge(self, i: int, j: int) -> bool {
        edges_connect(self.edges@, i, j)
    }
}

/// What `build_graph` guarantees: `g` is the similarity graph of `movies`
/// under the given weights and threshold. The nodes are the movies' node
/// projections in input order; for every pair `i < j` there is an edge
/// exactly when the combined similarity reaches the threshold (the threshold
/// is inclusive); and every edge carries the pair's combined similarity as
/// its weight.
pub open spec fn is_built_from(
    g: SimilarityGraph,
    movies: Seq<CleanMovieView>,
    gw: u64,
    sw: u64,
    threshold: u64,
) -> bool {
    &&& g.wf()
    &&& g.nodes@.len() == movies.len()
    &&& forall|i: int| 0 <= i < movies.len() ==> (#[trigger] g.nodes@[i])@ == node_of(movies[i])
    &&& forall|i: int, j: int|
        0 <= i < j < movies.len() ==> (g.has_edge(i, j) <==> node_similarity(
            node_of(movies[i]),
            node_of(movies[j]),
            gw,
            sw,
        ) >= threshold)
    &&& forall|k: int|
        0 <= k < g.edges@.len() ==> (#[trigger] g.edges@[k]).2 == node_similarity(
            node_of(movies[g.edges@[k].0 as int]),
            node_of(movies[g.edges@[k].1 as int]),
            gw,
            sw,
        )
}

/// Raising the similarity threshold never adds an edge: every edge of the
/// graph built with the higher threshold is an edge of the graph built, from
/// the same movies and weights, with the lower one.
pub proof fn lemma_edges_monotonic_in_threshold(
    movies: Seq<CleanMovieView>,
    gw: u64,
    sw: u64,
    t1: u64,
    t2: u64,
    g1: SimilarityGraph,
    g2: SimilarityGraph,
)
    requires
        is_built_from(g1, movies, gw, sw, t1),
        is_built_from(g2, movies, gw, sw, t2),
        t1 <= t2,
    ensures
        forall|i: int, j: int| g2.has_edge(i, j) ==> g1.has_edge(i, j),
{
    assert forall|i: int, j: int| g2.has_edge(i, j) implies g1.has_edge(i, j) by {
        let k = choose|k: int|
            0 <= k < g2.edges@.len() && edge_connects(#[trigger] g2.edges@[k], i, j);
        let a = g2.edges@[k].0 as int;
        let b = g2.edges@[k].1 as int;
        assert(0 <= a < b < movies.len());
        assert(g2.has_edge(a, b));
        assert(node_similarity(node_of(movies[a]), node_of(movies[b]), gw, sw) >= t2);
        assert(g1.has_edge(a, b));
        let k1 = choose|k1: int|
            0 <= k1 < g1.edges@.len() && edge_connects(#[trigger] g1.edges@[k1], a, b);
        assert(edge_connects(g1.edges@[k1], i, j));
    }
}

/// Combined similarity of two movies, in `WEIGHT_SCALE * SIM_SCALE` units.
fn pair_similarity(a: &CleanMovie, b: &CleanMovie, gw: u64, sw: u64) -> (r: u64)
    requires
        gw <= MAX_WEIGHT,
        sw <= MAX_WEIGHT,
    ensures
        r == node_similarity(node_of(a@), node_of(b@), gw, sw),
{
    let jac = genre_jaccard(&a.genres, &b.genres);
    let cos = cosine_similarity((a.critic_score, a.user_score), (b.critic_score, b.user_score));
    proof {
        assert((gw as int) * (jac as int) <= (MAX_WEIGHT as int) * (SIM_SCALE as int) && (
        sw as int) * (cos as int) <= (MAX_WEIGHT as int) * (SIM_SCALE as int))
            by (nonlinear_arith)
            requires
                gw <= MAX_WEIGHT,
                sw <= MAX_WEIGHT,
                jac <= SIM_SCALE,
                cos <= SIM_SCALE,
                0 <= jac,
                0 <= cos,
        ;
    }
    gw * jac + sw * cos
}

/// Clone of a string list, element for element.
fn clone_strings(v: &Vec<String>) -> (r: Vec<String>)
    ensures
        r@ == v@,
{
    let mut r: Vec<String> = Vec::new();
    let mut i: usize = 0;
    while i < v.len()
        invariant
            i <= v.len(),
            r@ =~= v@.take(i as int),
        decreases v.len() - i,
    {
        r.push(v[i].clone());
        i += 1;
    }
    proof {
        assert(v@.take(v@.len() as int) =~= v@);
    }
    r
}

/// Joining an edge list extended by one edge connects two nodes exactly when
/// the old list connects them or the new edge does.
proof fn lemma_edges_connect_push(
    es: Seq<(usize, usize, u64)>,
    e: (usize, usize, u64),
    i: int,
    j: int,
)
    ensures
        edges_connect(es.push(e), i, j) <==> (edges_connect(es, i, j) || edge_connects(e, i, j)),
{
    if edges_connect(es.push(e), i, j) {
        let k = choose|k: int|
            0 <= k < es.push(e).len() && edge_connects(#[trigger] es.push(e)[k], i, j);
        if k < es.len() {
            assert(edge_connects(es[k], i, j));
        } else {
            assert(edge_connects(e, i, j));
        }
    }
    if edges_connect(es, i, j) {
        let k = choose|k: int| 0 <= k < es.len() && edge_connects(#[trigger] es[k], i, j);
        assert(edge_connects(es.push(e)[k], i, j));
    }
    if edge_connects(e, i, j) {
        assert(edge_connects(es.push(e)[es.len() as int], i, j));
    }
}

/// Build the similarity graph of `movies`: one node per movie in input
/// order, and an edge for every unordered pair whose combined similarity
/// meets the (inclusive) threshold, weighted by that similarity.
pub fn build_graph(
    movies: &Vec<CleanMovie>,
    genre_weight: u64,
    score_weight: u64,
    similarity_threshold: u64,
) -> (g: SimilarityGraph)
    requires
        genre_weight <= MAX_WEIGHT,
        score_weight <= MAX_WEIGHT,
    ensures
        is_built_from(g, clean_views(movies@), genre_weight, score_weight, similarity_threshold),
{
    let ghost mviews = clean_views(movies@);
    let n = movies.len();
    let mut nodes: Vec<MovieNode> = Vec::new();
    let mut i: usize = 0;
    while i < n
        invariant
            i <= n,
            n == movies@.len(),
            mviews == clean_views(movies@),
            nodes@.len() == i,
            forall|k: int| 0 <= k < i ==> (#[trigger] nodes@[k])@ == node_of(mviews[k]),
        decreases n - i,
    {
        let m = &movies[i];
        nodes.push(
            MovieNode {
                title: m.title.clone(),
                year: m.year,
                genres: clone_strings(&m.genres),
                critic_score: m.critic_score,
                user_score: m.user_score,
            },
        );
        i += 1;
    }
    let mut edges: Vec<(usize, usize, u64)> = Vec::new();
    let mut a: usize = 0;
    while a < n
        invariant
            a <= n,
            n == movies@.len(),
            mviews == clean_views(movies@),
            genre_weight <= MAX_WEIGHT,
            score_weight <= MAX_WEIGHT,
            forall|k: int|
                0 <= k < edges@.len() ==> (#[trigger] edges@[k]).0 < edges@[k].1 < n,
            forall|k1: int, k2: int|
                0 <= k1 < k2 < edges@.len() ==> edge_lt(
                    #[trigger] edges@[k1],
                    #[trigger] edges@[k2],
                ),
            forall|k: int| 0 <= k < edges@.len() ==> (#[trigger] edges@[k]).0 < a,
            forall|k: int|
                0 <= k < edges@.len() ==> (#[trigger] edges@[k]).2 == node_similarity(
                    node_of(mviews[edges@[k].0 as int]),
                    node_of(mviews[edges@[k].1 as int]),
                    genre_weight,
                    score_weight,
                ),
            forall|x: int, y: int|
                0 <= x < y < n && x < a ==> (edges_connect(edges@, x, y) <==> node_similarity(
                    node_of(mviews[x]),
                    node_of(mviews[y]),
                    genre_weight,
                    score_weight,
                ) >= similarity_threshold),
        decreases n - a,
    {
        let mut b: usize = a + 1;
        while b < n
            invariant
                a < b <= n,
                a < n,
                n == movies@.len(),
                mviews == clean_views(movies@),
                genre_weight <= MAX_WEIGHT,
                score_weight <= MAX_WEIGHT,
                forall|k: int|
                    0 <= k < edges@.len() ==> (#[trigger] edges@[k]).0 < edges@[k].1 < n,
                forall|k1: int, k2: int|
                    0 <= k1 < k2 < edges@.len() ==> edge_lt(
                        #[trigger] edges@[k1],
                        #[trigger] edges@[k2],
                    ),
                forall|k: int|
                    0 <= k < edges@.len() ==> (#[trigger] edges@[k]).0 < a || (edges@[k].0 == a
                        && edges@[k].1 < b),
                forall|k: int|
                    0 <= k < edges@.len() ==> (#[trigger] edges@[k]).2 == node_similarity(
                        node_of(mviews[edges@[k].0 as int]),
                        node_of(mviews[edges@[k].1 as int]),
                        genre_weight,
                        score_weight,
                    ),
                forall|x: int, y: int|
                    0 <= x < y < n && (x < a || (x == a && y < b)) ==> (edges_connect(edges@, x, y)
                        <==> node_similarity(
                        node_of(mviews[x]),
                        node_of(mviews[y]),
                        genre_weight,
                        score_weight,
                    ) >= similarity_threshold),
            decreases n - b,
        {
            let w = pair_similarity(&movies[a], &movies[b], genre_weight, score_weight);
            let ghost old_edges = edges@;
            if w >= similarity_threshold {
                edges.push((a, b, w));
                proof {
                    assert forall|x: int, y: int|
                        edges_connect(edges@, x, y) == (edges_connect(old_edges, x, y)
                            || edge_connects((a, b, w), x, y)) by {
                        lemma_edges_connect_push(old_edges, (a, b, w), x, y);
                    }
                }
            } else {
                proof {
                    assert(!edges_connect(edges@, a as int, b as int)) by {
                        if edges_connect(edges@, a as int, b as int) {
                            let k = choose|k: int|
                                0 <= k < edges@.len() && edge_connects(
                                    #[trigger] edges@[k],
                                    a as int,
                                    b as int,
                                );
                        }
                    }
                }
            }
            proof {
                assert forall|x: int, y: int|
                    0 <= x < y < n && (x < a || (x == a && y < b + 1)) implies (edges_connect(
                    edges@,
                    x,
                    y,
                ) <==> node_similarity(
                    node_of(mviews[x]),
                    node_of(mviews[y]),
                    genre_weight,
                    score_weight,
                ) >= similarity_threshold) by {
                    if x < a || (x == a && y < b) {
                        assert(!edge_connects((a, b, w), x, y));
                        assert(edges_connect(old_edges, x, y) <==> node_similarity(
                            node_of(mviews[x]),
                            node_of(mviews[y]),
                            genre_weight,
                            score_weight,
                        ) >= similarity_threshold);
                        if edges_connect(old_edges, x, y) {
                            let k = choose|k: int|
                                0 <= k < old_edges.len() && edge_connects(
                                    #[trigger] old_edges[k],
                                    x,
                                    y,
                                );
                            assert(edge_connects(edges@[k], x, y));
                        }
                        if edges_connect(edges@, x, y) {
                            let k = choose|k: int|
                                0 <= k < edges@.len() && edge_connects(#[trigger] edges@[k], x, y);
                            assert(k < old_edges.len() || edges@[k] == (a, b, w));
                            if k < old_edges.len() {
                                assert(edge_connects(old_edges[k], x, y));
                            }
                        }
                    } else {
                        assert(x == a && y == b);
                    }
                }
            }
            b += 1;
        }
        a += 1;
    }
    let g = SimilarityGraph { nodes, edges };
    g
}

} // verus!

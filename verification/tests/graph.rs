use movie_graph::analysis::{betweenness_centrality, degree_centrality, find_cluster_indices,
    find_clusters};
use movie_graph::data_cleaning::CleanMovie;
use movie_graph::graph_builder::build_graph;

fn movie(title: &str, year: u16, genre_names: &[&str], critic: u16, user: u16) -> CleanMovie {
    CleanMovie {
        title: title.to_string(),
        year,
        genres: genre_names.iter().map(|s| s.to_string()).collect(),
        critic_score: critic,
        user_score: user,
        score_gap: user as i32 - critic as i32,
    }
}

#[test]
fn end_to_end_two_drama_movies() {
    // A and B share the single genre Drama; with genre weight 1.0, score
    // weight 0.0 and threshold 0.5 their Jaccard similarity of 1.0 makes
    // exactly one edge of weight 1.0.
    let movies = vec![
        movie("A", 1994, &["Drama"], 750, 820),
        movie("B", 1999, &["Drama"], 650, 750),
    ];
    let g = build_graph(&movies, 1_000, 0, 500_000_000);
    assert_eq!(g.nodes.len(), 2);
    assert_eq!(g.edges.len(), 1);
    assert_eq!(g.edges[0], (0, 1, 1_000_000_000));
    let degrees = degree_centrality(&g);
    assert_eq!(degrees.len(), 2);
    assert_eq!(degrees[0], ("A".to_string(), 1));
    assert_eq!(degrees[1], ("B".to_string(), 1));
    let clusters = find_clusters(&g);
    assert_eq!(clusters, vec![vec!["A".to_string(), "B".to_string()]]);
}

#[test]
fn threshold_is_inclusive_and_monotonic() {
    // A-B similarity is exactly 0.5 (genre sets {X} and {X, Y}); raising the
    // threshold only ever removes edges.
    let movies = vec![
        movie("A", 2000, &["X"], 500, 500),
        movie("B", 2001, &["X", "Y"], 500, 500),
        movie("C", 2002, &["Z"], 500, 500),
    ];
    let at_half = build_graph(&movies, 1_000, 0, 500_000_000);
    // threshold met exactly: the edge exists
    assert_eq!(at_half.edges.len(), 1);
    assert_eq!(at_half.edges[0].0, 0);
    assert_eq!(at_half.edges[0].1, 1);
    let above = build_graph(&movies, 1_000, 0, 500_000_001);
    assert_eq!(above.edges.len(), 0);
    // every edge of a higher-threshold graph appears in the lower one
    let low = build_graph(&movies, 1_000, 500, 300_000_000);
    let high = build_graph(&movies, 1_000, 500, 700_000_000);
    for e in high.edges.iter() {
        assert!(low.edges.iter().any(|f| f.0 == e.0 && f.1 == e.1));
    }
}

#[test]
fn clusters_partition_all_nodes_exactly_once() {
    // A-B connected, C-D connected, E isolated: three clusters
    let movies = vec![
        movie("A", 2000, &["X"], 100, 100),
        movie("B", 2001, &["X"], 100, 100),
        movie("C", 2002, &["Y"], 100, 100),
        movie("D", 2003, &["Y"], 100, 100),
        movie("E", 2004, &["Z"], 0, 0),
    ];
    // score weight zero, so only genre overlap makes edges
    let g = build_graph(&movies, 1_000, 0, 900_000_000);
    let ix = find_cluster_indices(&g);
    let total: usize = ix.iter().map(|c| c.len()).sum();
    assert_eq!(total, 5);
    let mut seen = [false; 5];
    for cluster in ix.iter() {
        assert!(!cluster.is_empty());
        for &node in cluster.iter() {
            assert!(!seen[node]);
            seen[node] = true;
        }
    }
    assert!(seen.iter().all(|&s| s));
    assert_eq!(ix, vec![vec![0, 1], vec![2, 3], vec![4]]);
    let clusters = find_clusters(&g);
    assert_eq!(
        clusters,
        vec![
            vec!["A".to_string(), "B".to_string()],
            vec!["C".to_string(), "D".to_string()],
            vec!["E".to_string()],
        ]
    );
}

#[test]
fn betweenness_counts_reachable_sources() {
    // A-B joined, C isolated: A and B can each be reached from one other
    // node, C from none.
    let movies = vec![
        movie("A", 2000, &["X"], 100, 100),
        movie("B", 2001, &["X"], 100, 100),
        movie("C", 2002, &["Y"], 0, 0),
    ];
    let g = build_graph(&movies, 1_000, 0, 900_000_000);
    let scores = betweenness_centrality(&g);
    assert_eq!(scores.len(), 3);
    assert_eq!(scores[0], ("A".to_string(), 1));
    assert_eq!(scores[1], ("B".to_string(), 1));
    assert_eq!(scores[2], ("C".to_string(), 0));
}

#[test]
fn betweenness_on_a_path_counts_whole_component() {
    // A-B-C in a path: the measure counts reachable sources, so every node
    // of the component scores the same, component size minus one.
    let movies = vec![
        movie("A", 2000, &["X"], 100, 100),
        movie("B", 2001, &["X", "Y"], 100, 100),
        movie("C", 2002, &["Y"], 100, 100),
    ];
    let g = build_graph(&movies, 1_000, 0, 400_000_000);
    // edges A-B and B-C (Jaccard 1/2 each), but not A-C (Jaccard 0)
    assert_eq!(g.edges.len(), 2);
    assert_eq!((g.edges[0].0, g.edges[0].1), (0, 1));
    assert_eq!((g.edges[1].0, g.edges[1].1), (1, 2));
    let scores = betweenness_centrality(&g);
    assert_eq!(scores[0].1, 2);
    assert_eq!(scores[1].1, 2);
    assert_eq!(scores[2].1, 2);
    let clusters = find_clusters(&g);
    assert_eq!(clusters.len(), 1);
    assert_eq!(clusters[0].len(), 3);
}

#[test]
fn duplicate_titles_form_distinct_nodes() {
    let movies = vec![
        movie("Same", 2000, &["X"], 100, 100),
        movie("Same", 2001, &["Y"], 100, 100),
    ];
    let g = build_graph(&movies, 1_000, 0, 900_000_000);
    assert_eq!(g.nodes.len(), 2);
    assert_eq!(g.edges.len(), 0);
    let degrees = degree_centrality(&g);
    assert_eq!(degrees.len(), 2);
    assert_eq!(degrees[0], ("Same".to_string(), 0));
    assert_eq!(degrees[1], ("Same".to_string(), 0));
    let clusters = find_clusters(&g);
    assert_eq!(clusters.len(), 2);
}

#[test]
fn empty_input_gives_empty_results() {
    let movies: Vec<CleanMovie> = Vec::new();
    let g = build_graph(&movies, 1_000, 1_000, 0);
    assert_eq!(g.nodes.len(), 0);
    assert_eq!(g.edges.len(), 0);
    assert!(degree_centrality(&g).is_empty());
    assert!(betweenness_centrality(&g).is_empty());
    assert!(find_clusters(&g).is_empty());
}

#[test]
fn combined_weights_add_up() {
    // identical movies: Jaccard 1.0 and cosine 1.0, so the edge weight is
    // genre_weight + score_weight in billionths
    let movies = vec![
        movie("A", 2000, &["X"], 700, 800),
        movie("B", 2001, &["X"], 700, 800),
    ];
    let g = build_graph(&movies, 700, 300, 1_000_000_000);
    assert_eq!(g.edges.len(), 1);
    assert_eq!(g.edges[0].2, 1_000_000_000);
}

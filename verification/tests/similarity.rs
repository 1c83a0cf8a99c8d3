use movie_graph::similarity::{cosine_similarity, genre_jaccard, SIM_SCALE};

fn genres(names: &[&str]) -> Vec<String> {
    names.iter().map(|s| s.to_string()).collect()
}

#[test]
fn test_cosine_similarity() {
    // vectors with close ratios: (8.0, 7.0) and (7.0, 9.0) in hundredths
    let a = (800u16, 700u16);
    let b = (700u16, 900u16);
    let sim = cosine_similarity(a, b);
    // expecting strong similarity, above 0.9 in SIM_SCALE units
    assert!(sim > 900_000);
}

#[test]
fn test_genre_jaccard() {
    let g1 = genres(&["Drama", "Comedy"]);
    let g2 = genres(&["Drama", "Action"]);
    let sim = genre_jaccard(&g1, &g2);
    // one shared genre out of three total: 1/3, rounded down in fixed point
    assert_eq!(sim, SIM_SCALE / 3);
    assert_eq!(sim, 333_333);
}

#[test]
fn jaccard_identical_sets_give_one() {
    let g1 = genres(&["Drama", "Comedy"]);
    let g2 = genres(&["Comedy", "Drama"]);
    assert_eq!(genre_jaccard(&g1, &g2), SIM_SCALE);
    // duplicates within a list do not change the set
    let g3 = genres(&["Drama", "Drama", "Comedy"]);
    assert_eq!(genre_jaccard(&g1, &g3), SIM_SCALE);
}

#[test]
fn jaccard_disjoint_sets_give_zero() {
    let g1 = genres(&["Drama"]);
    let g2 = genres(&["Action", "Horror"]);
    assert_eq!(genre_jaccard(&g1, &g2), 0);
}

#[test]
fn jaccard_empty_against_nonempty_gives_zero() {
    let g1: Vec<String> = Vec::new();
    let g2 = genres(&["Drama"]);
    assert_eq!(genre_jaccard(&g1, &g2), 0);
    assert_eq!(genre_jaccard(&g2, &g1), 0);
    // both empty: the union is empty, defined as zero
    let g3: Vec<String> = Vec::new();
    assert_eq!(genre_jaccard(&g1, &g3), 0);
}

#[test]
fn jaccard_always_within_scale() {
    let cases: Vec<(Vec<String>, Vec<String>)> = vec![
        (genres(&["A"]), genres(&["A", "B", "C"])),
        (genres(&["A", "B"]), genres(&["B", "C"])),
        (genres(&[]), genres(&[])),
        (genres(&["X", "X", "Y"]), genres(&["Y", "Z"])),
    ];
    for (g1, g2) in cases {
        let sim = genre_jaccard(&g1, &g2);
        assert!(sim <= SIM_SCALE);
    }
}

#[test]
fn cosine_zero_vector_gives_zero() {
    assert_eq!(cosine_similarity((0, 0), (800, 700)), 0);
    assert_eq!(cosine_similarity((800, 700), (0, 0)), 0);
    assert_eq!(cosine_similarity((0, 0), (0, 0)), 0);
}

#[test]
fn cosine_parallel_vectors_give_one() {
    // (1, 2) and (2, 4) point the same way: cosine exactly 1.0
    assert_eq!(cosine_similarity((100, 200), (200, 400)), SIM_SCALE);
    assert_eq!(cosine_similarity((500, 500), (900, 900)), SIM_SCALE);
}

#[test]
fn cosine_always_within_scale() {
    let cases = [
        ((1000u16, 0u16), (0u16, 1000u16)),
        ((1, 1000), (1000, 1)),
        ((750, 820), (650, 750)),
        ((65535, 65535), (1, 65535)),
    ];
    for (a, b) in cases {
        let sim = cosine_similarity(a, b);
        assert!(sim <= SIM_SCALE);
    }
    // orthogonal vectors: no alignment at all
    assert_eq!(cosine_similarity((1000, 0), (0, 1000)), 0);
}

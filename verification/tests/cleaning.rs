use movie_graph::analysis::{average_score_gap_by_decade, average_score_gap_by_genre};
use movie_graph::data_cleaning::{clean_record, clean_records, parse_year, split_genres,
    CleanMovie, Movie};

fn clean(title: &str, year: u16, genre_names: &[&str], critic: u16, user: u16) -> CleanMovie {
    CleanMovie {
        title: title.to_string(),
        year,
        genres: genre_names.iter().map(|s| s.to_string()).collect(),
        critic_score: critic,
        user_score: user,
        score_gap: user as i32 - critic as i32,
    }
}

#[allow(non_snake_case)]
fn raw(title: &str, year: &str, genre: &str, metacritic: Option<u16>, imdbRating: Option<u16>)
    -> Movie {
    Movie {
        title: title.to_string(),
        year: year.to_string(),
        genre: genre.to_string(),
        metacritic,
        imdbRating,
    }
}

#[test]
fn test_average_score_gap_by_decade() {
    let sample = vec![
        clean("Test", 1994, &["Drama"], 750, 820),
        clean("Test2", 1999, &["Drama"], 650, 750),
    ];
    // expecting the 1990s average gap to be (0.7 + 1.0) / 2 = 0.85 exactly
    let result = average_score_gap_by_decade(&sample);
    assert_eq!(result.len(), 1);
    assert_eq!(result[0].decade, 1990);
    assert_eq!(result[0].gap_sum, 170);
    assert_eq!(result[0].movie_count, 2);
    let mean = result[0].gap_sum as f64 / result[0].movie_count as f64 / 100.0;
    assert_eq!(mean, 0.85);
}

#[test]
fn decade_bucketing_rounds_down_to_ten() {
    let sample = vec![
        clean("A", 1994, &["Drama"], 700, 700),
        clean("B", 1999, &["Drama"], 700, 700),
        clean("C", 2003, &["Drama"], 700, 700),
    ];
    let result = average_score_gap_by_decade(&sample);
    assert_eq!(result.len(), 2);
    assert_eq!(result[0].decade, 1990);
    assert_eq!(result[0].movie_count, 2);
    assert_eq!(result[1].decade, 2000);
    assert_eq!(result[1].movie_count, 1);
}

#[test]
fn decade_average_handles_negative_gaps() {
    // critics liked it more than audiences: gap -1.50
    let sample = vec![clean("A", 1980, &["Drama"], 900, 750)];
    let result = average_score_gap_by_decade(&sample);
    assert_eq!(result.len(), 1);
    assert_eq!(result[0].decade, 1980);
    assert_eq!(result[0].gap_sum, -150);
    assert_eq!(result[0].movie_count, 1);
}

#[test]
fn empty_input_gives_empty_aggregates() {
    let sample: Vec<CleanMovie> = Vec::new();
    assert!(average_score_gap_by_decade(&sample).is_empty());
    assert!(average_score_gap_by_genre(&sample).is_empty());
}

#[test]
fn genre_aggregation_counts_full_gap_per_genre() {
    // a movie tagged Drama and Comedy contributes its whole gap to both
    let sample = vec![clean("A", 2000, &["Drama", "Comedy"], 700, 820)];
    let result = average_score_gap_by_genre(&sample);
    assert_eq!(result.len(), 2);
    assert_eq!(result[0].genre, "Drama");
    assert_eq!(result[0].gap_sum, 120);
    assert_eq!(result[0].movie_count, 1);
    assert_eq!(result[1].genre, "Comedy");
    assert_eq!(result[1].gap_sum, 120);
    assert_eq!(result[1].movie_count, 1);
}

#[test]
fn genre_aggregation_averages_across_movies() {
    let sample = vec![
        clean("A", 2000, &["Drama", "Comedy"], 700, 770),
        clean("B", 2001, &["Drama"], 600, 630),
    ];
    let result = average_score_gap_by_genre(&sample);
    assert_eq!(result.len(), 2);
    assert_eq!(result[0].genre, "Drama");
    assert_eq!(result[0].gap_sum, 100);
    assert_eq!(result[0].movie_count, 2);
    assert_eq!(result[1].genre, "Comedy");
    assert_eq!(result[1].gap_sum, 70);
    assert_eq!(result[1].movie_count, 1);
}

#[test]
fn genre_duplicated_on_one_movie_counts_twice() {
    let sample = vec![clean("A", 2000, &["Drama", "Drama"], 700, 750)];
    let result = average_score_gap_by_genre(&sample);
    assert_eq!(result.len(), 1);
    assert_eq!(result[0].genre, "Drama");
    assert_eq!(result[0].gap_sum, 100);
    assert_eq!(result[0].movie_count, 2);
}

#[test]
fn parse_year_takes_first_four_digits() {
    assert_eq!(parse_year(&"1994".to_string()), Some(1994));
    assert_eq!(parse_year(&"2003-2005".to_string()), Some(2003));
    assert_eq!(parse_year(&"199".to_string()), None);
    assert_eq!(parse_year(&"19x4".to_string()), None);
    assert_eq!(parse_year(&"".to_string()), None);
    assert_eq!(parse_year(&" 1994".to_string()), None);
}

#[test]
fn split_genres_trims_whitespace() {
    let pieces = split_genres(&" Drama , Comedy ,Action".to_string());
    assert_eq!(
        pieces,
        vec!["Drama".to_string(), "Comedy".to_string(), "Action".to_string()]
    );
    // an empty genre text still yields one (empty) piece
    assert_eq!(split_genres(&"".to_string()), vec!["".to_string()]);
    assert_eq!(
        split_genres(&"Drama,".to_string()),
        vec!["Drama".to_string(), "".to_string()]
    );
}

#[test]
fn clean_record_normalizes_and_precomputes_gap() {
    // metacritic 75.00 on the 0-100 scale becomes 7.50 on the 0-10 scale
    let m = raw("A", "1994", "Drama, Comedy", Some(7500), Some(820));
    let c = clean_record(&m).unwrap();
    assert_eq!(c.title, "A");
    assert_eq!(c.year, 1994);
    assert_eq!(c.genres, vec!["Drama".to_string(), "Comedy".to_string()]);
    assert_eq!(c.critic_score, 750);
    assert_eq!(c.user_score, 820);
    assert_eq!(c.score_gap, 70);
}

#[test]
fn clean_record_discards_incomplete_rows() {
    assert!(clean_record(&raw("A", "1994", "Drama", None, Some(820))).is_none());
    assert!(clean_record(&raw("A", "1994", "Drama", Some(7500), None)).is_none());
    assert!(clean_record(&raw("A", "94", "Drama", Some(7500), Some(820))).is_none());
    assert!(clean_record(&raw("A", "abcd", "Drama", Some(7500), Some(820))).is_none());
}

#[test]
fn clean_records_keeps_input_order_of_valid_rows() {
    let rows = vec![
        raw("A", "1994", "Drama", Some(7500), Some(820)),
        raw("B", "bad", "Drama", Some(7000), Some(700)),
        raw("C", "2001", "Action", Some(6000), Some(710)),
        raw("D", "2002", "Action", None, None),
    ];
    let out = clean_records(&rows);
    assert_eq!(out.len(), 2);
    assert_eq!(out[0].title, "A");
    assert_eq!(out[1].title, "C");
    assert_eq!(out[1].score_gap, 110);
}

use ml_systems::recommend::content_based::{decimal_text, label, ContentBasedFilter};
use ml_systems::recommend::models::{Dataset, Movie, Rating, User};

fn strings(list: &[&str]) -> Vec<String> {
    list.iter().map(|s| s.to_string()).collect()
}

fn movie(id: u32, genres: &[&str], director: &str, actors: &[&str], year: u32) -> Movie {
    Movie {
        id,
        title: format!("Movie {id}"),
        genres: strings(genres),
        year,
        director: director.to_string(),
        actors: strings(actors),
    }
}

fn stars(user_id: u32, movie_id: u32, rating: f64) -> Rating {
    Rating { user_id, movie_id, rating: (rating * 1e6).round() as u32 }
}

fn dataset() -> Dataset {
    let mut dataset = Dataset::new();
    dataset.add_movie(movie(1, &["Action", "Sci-Fi"], "D1", &["A1", "A2"], 1999));
    dataset.add_movie(movie(2, &["Action"], "D1", &["A1"], 1995));
    dataset.add_movie(movie(3, &["Drama"], "D2", &["A3"], 2005));
    dataset.add_movie(movie(4, &["Sci-Fi", "Drama"], "D3", &["A2"], 1991));
    dataset.add_movie(movie(5, &["Comedy"], "D4", &["A4"], 2015));
    dataset.add_user(User { id: 1, name: "Ada".to_string() });
    dataset.add_rating(stars(1, 1, 5.0));
    dataset.add_rating(stars(2, 2, 4.0));
    dataset.add_rating(stars(1, 3, 2.0));
    dataset.add_rating(stars(3, 1, 4.0));
    dataset.add_rating(stars(3, 2, 3.0));
    dataset.add_rating(stars(4, 77, 5.0));
    dataset
}

#[test]
fn decimal_text_writes_numerals() {
    assert_eq!(decimal_text(0), "0");
    assert_eq!(decimal_text(7), "7");
    assert_eq!(decimal_text(10), "10");
    assert_eq!(decimal_text(1990), "1990");
    assert_eq!(decimal_text(u32::MAX), "4294967295");
}

#[test]
fn movie_features_are_labels_in_lower_case_each_once() {
    let dataset = Dataset::new();
    let filter = ContentBasedFilter::new(&dataset);
    let features = filter.build_movie_features(&movie(
        9,
        &["Action", "Sci-Fi", "ACTION"],
        "Lana Wachowski",
        &["Keanu Reeves", "Carrie-Anne Moss", "keanu reeves"],
        1999,
    ));
    assert_eq!(
        features,
        strings(&[
            "genre:action",
            "genre:sci-fi",
            "director:lana wachowski",
            "actor:keanu reeves",
            "actor:carrie-anne moss",
            "decade:1990",
        ])
    );
    let bare = filter.build_movie_features(&movie(10, &[], "", &[], 5));
    assert_eq!(bare, strings(&["director:", "decade:0"]));
}

#[test]
fn jaccard_similarity_exact_values() {
    let dataset = Dataset::new();
    let filter = ContentBasedFilter::new(&dataset);
    let empty = strings(&[]);
    let abc = strings(&["a", "b", "c"]);
    assert_eq!(filter.jaccard_similarity(&empty, &empty), 0);
    assert_eq!(filter.jaccard_similarity(&abc, &empty), 0);
    assert_eq!(filter.jaccard_similarity(&empty, &abc), 0);
    assert_eq!(filter.jaccard_similarity(&abc, &abc), 1_000_000);
    assert_eq!(filter.jaccard_similarity(&abc, &strings(&["c", "b", "a"])), 1_000_000);
    assert_eq!(filter.jaccard_similarity(&abc, &strings(&["b", "c", "d"])), 500_000);
    assert_eq!(filter.jaccard_similarity(&abc, &strings(&["x", "y"])), 0);
    assert_eq!(filter.jaccard_similarity(&strings(&["a"]), &abc), 333_333);
    assert_eq!(filter.jaccard_similarity(&abc, &strings(&["a", "b"])), 666_666);
}

#[test]
fn user_profile_is_the_mean_rating_under_each_label() {
    let dataset = dataset();
    let filter = ContentBasedFilter::new(&dataset);
    let profile = filter.build_user_profile(3);
    let expected: Vec<(String, u32)> = vec![
        ("genre:action".to_string(), 3_500_000),
        ("genre:sci-fi".to_string(), 4_000_000),
        ("director:d1".to_string(), 3_500_000),
        ("actor:a1".to_string(), 3_500_000),
        ("actor:a2".to_string(), 4_000_000),
        ("decade:1990".to_string(), 3_500_000),
    ];
    assert_eq!(profile, expected);
    // a user without ratings, and one who rated only a movie that is not there
    assert!(filter.build_user_profile(99).is_empty());
    assert!(filter.build_user_profile(4).is_empty());
}

#[test]
fn user_profile_rounds_the_mean_down() {
    let mut dataset = Dataset::new();
    dataset.add_movie(movie(1, &["Noir"], "D", &[], 1941));
    dataset.add_movie(movie(2, &["Noir"], "E", &[], 1946));
    dataset.add_movie(movie(3, &["Noir"], "F", &[], 1944));
    dataset.add_rating(stars(1, 1, 1.0));
    dataset.add_rating(stars(1, 2, 1.0));
    dataset.add_rating(stars(1, 3, 2.0));
    let filter = ContentBasedFilter::new(&dataset);
    let profile = filter.build_user_profile(1);
    assert_eq!(profile[0], ("genre:noir".to_string(), 1_333_333));
    assert_eq!(profile[2], ("decade:1940".to_string(), 1_333_333));
    assert_eq!(profile[1], ("director:d".to_string(), 1_000_000));
}

#[test]
fn movie_score_is_the_mean_of_the_weights_that_match() {
    let dataset = dataset();
    let filter = ContentBasedFilter::new(&dataset);
    let profile = filter.build_user_profile(1);
    assert_eq!(filter.calculate_movie_score(&profile, &dataset.movies[&2]), 5_000_000);
    assert_eq!(filter.calculate_movie_score(&profile, &dataset.movies[&4]), 4_250_000);
    assert_eq!(filter.calculate_movie_score(&profile, &dataset.movies[&5]), 0);
    assert_eq!(filter.calculate_movie_score(&Vec::new(), &dataset.movies[&1]), 0);
}

#[test]
fn recommendations_are_the_best_unrated_movies() {
    let dataset = dataset();
    let filter = ContentBasedFilter::new(&dataset);
    assert_eq!(filter.recommend(1, 10), vec![(2, 5_000_000), (4, 4_250_000)]);
    assert_eq!(filter.recommend(1, 2), vec![(2, 5_000_000), (4, 4_250_000)]);
    assert_eq!(filter.recommend(1, 1), vec![(2, 5_000_000)]);
    assert_eq!(filter.recommend(1, 0), vec![]);
    // no profile, no recommendations
    assert_eq!(filter.recommend(99, 10), vec![]);
    assert_eq!(filter.recommend(4, 10), vec![]);
}

#[test]
fn recommendations_with_equal_scores_come_in_some_order() {
    let mut dataset = Dataset::new();
    for id in 1..=20 {
        dataset.add_movie(movie(id, &["Western"], &format!("D{id}"), &[], 1960));
    }
    dataset.add_rating(stars(1, 1, 3.0));
    let filter = ContentBasedFilter::new(&dataset);
    let all = filter.recommend(1, 100);
    let mut ids: Vec<u32> = all.iter().map(|r| r.0).collect();
    ids.sort();
    assert_eq!(ids, (2..=20).collect::<Vec<u32>>());
    assert!(all.iter().all(|r| r.1 == 3_000_000));
    let some = filter.recommend(1, 5);
    assert_eq!(some.len(), 5);
    let mut some_ids: Vec<u32> = some.iter().map(|r| r.0).collect();
    some_ids.sort();
    some_ids.dedup();
    assert_eq!(some_ids.len(), 5);
    assert!(some_ids.iter().all(|id| (2..=20).contains(id)));
}

#[test]
fn similar_movies_share_labels() {
    let dataset = dataset();
    let filter = ContentBasedFilter::new(&dataset);
    assert_eq!(filter.find_similar_movies(1, 10), vec![(2, 666_666), (4, 375_000)]);
    assert_eq!(filter.find_similar_movies(1, 1), vec![(2, 666_666)]);
    assert_eq!(filter.find_similar_movies(1, 0), vec![]);
    assert_eq!(filter.find_similar_movies(5, 10), vec![]);
    assert_eq!(filter.find_similar_movies(42, 10), vec![]);
    // similarity is symmetric
    assert_eq!(filter.find_similar_movies(2, 1), vec![(1, 666_666)]);
}

#[test]
fn labels_keep_the_names_as_given() {
    assert_eq!(
        label(&strings(&["Noir", "noir", "Noir"]), "Welles", &strings(&["a", "b", "a"]), 1941),
        strings(&["genre:Noir", "genre:noir", "director:Welles", "actor:a", "actor:b", "decade:1940"])
    );
    assert_eq!(label(&strings(&[]), "x", &strings(&[]), 9), strings(&["director:x", "decade:0"]));
    assert_eq!(
        label(&strings(&["director:x"]), "x", &strings(&[]), u32::MAX),
        strings(&["genre:director:x", "director:x", "decade:4294967290"])
    );
}

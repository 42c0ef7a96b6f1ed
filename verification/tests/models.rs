use ml_systems::recommend::models::{Dataset, Movie, Rating, User};

fn movie(id: u32, title: &str) -> Movie {
    Movie {
        id,
        title: title.to_string(),
        genres: vec!["Drama".to_string()],
        year: 1999,
        director: "Someone".to_string(),
        actors: vec!["A".to_string(), "B".to_string()],
    }
}

fn rating(user_id: u32, movie_id: u32, stars: u32) -> Rating {
    Rating { user_id, movie_id, rating: stars * 1_000_000 }
}

#[test]
fn new_dataset_is_empty() {
    let dataset = Dataset::new();
    assert!(dataset.movies.is_empty());
    assert!(dataset.users.is_empty());
    assert!(dataset.ratings.is_empty());
    assert!(dataset.get_user_ratings(1).is_empty());
    assert!(dataset.get_movie_ratings(1).is_empty());
}

#[test]
fn movies_and_users_are_kept_by_identifier() {
    let mut dataset = Dataset::new();
    dataset.add_movie(movie(1, "First"));
    dataset.add_movie(movie(2, "Second"));
    dataset.add_movie(movie(1, "First again"));
    dataset.add_user(User { id: 7, name: "Ada".to_string() });
    dataset.add_user(User { id: 7, name: "Grace".to_string() });
    assert_eq!(dataset.movies.len(), 2);
    assert_eq!(dataset.movies[&1].title, "First again");
    assert_eq!(dataset.movies[&2].title, "Second");
    assert_eq!(dataset.users.len(), 1);
    assert_eq!(dataset.users[&7].name, "Grace");
    assert!(dataset.ratings.is_empty());
}

#[test]
fn ratings_are_found_by_user_and_by_movie_in_order() {
    let mut dataset = Dataset::new();
    dataset.add_rating(rating(1, 10, 5));
    dataset.add_rating(rating(2, 10, 3));
    dataset.add_rating(rating(1, 11, 4));
    dataset.add_rating(rating(1, 10, 1));
    let by_user: Vec<(u32, u32)> =
        dataset.get_user_ratings(1).iter().map(|r| (r.movie_id, r.rating)).collect();
    assert_eq!(by_user, vec![(10, 5_000_000), (11, 4_000_000), (10, 1_000_000)]);
    let of_movie: Vec<(u32, u32)> =
        dataset.get_movie_ratings(10).iter().map(|r| (r.user_id, r.rating)).collect();
    assert_eq!(of_movie, vec![(1, 5_000_000), (2, 3_000_000), (1, 1_000_000)]);
    assert!(dataset.get_user_ratings(3).is_empty());
    assert!(dataset.get_movie_ratings(12).is_empty());
    assert_eq!(dataset.ratings.len(), 4);
}

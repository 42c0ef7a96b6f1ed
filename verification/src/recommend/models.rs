//! Movies, users, ratings, and the dataset that holds them.

use vstd::prelude::*;
use std::collections::HashMap;

verus! {

/// A movie with what is known of it.
#[derive(Debug, Clone)]
pub struct Movie {
    pub id: u32,
    pub title: String,
    pub genres: Vec<String>,
    pub year: u32,
    pub director: String,
    pub actors: Vec<String>,
}

/// A user of the service.
#[derive(Debug, Clone)]
pub struct User {
    pub id: u32,
    pub name: String,
}

/// What a user thinks of a movie.
#[derive(Debug, Clone, Copy)]
pub struct Rating {
    pub user_id: u32,
    pub movie_id: u32,
    /// Explicit feedback in millionths: 1_000_000 to 5_000_000 for one to
    /// five stars.
    pub rating: u32,
}

/// Movies and users by their identifiers, and the ratings in the order in
/// which they were given.
pub struct Dataset {
    pub movies: HashMap<u32, Movie>,
    pub users: HashMap<u32, User>,
    pub ratings: Vec<Rating>,
}

/// The ratings given by `user_id`, in order.
pub open spec fn ratings_by_user(ratings: Seq<Rating>, user_id: u32) -> Seq<Rating>
    decreases ratings.len(),
{
    if ratings.len() == 0 {
        Seq::empty()
    } else if ratings.last().user_id == user_id {
        ratings_by_user(ratings.drop_last(), user_id).push(ratings.last())
    } else {
        ratings_by_user(ratings.drop_last(), user_id)
    }
}

/// The ratings given to `movie_id`, in order.
pub open spec fn ratings_of_movie(ratings: Seq<Rating>, movie_id: u32) -> Seq<Rating>
    decreases ratings.len(),
{
    if ratings.len() == 0 {
        Seq::empty()
    } else if ratings.last().movie_id == movie_id {
        ratings_of_movie(ratings.drop_last(), movie_id).push(ratings.last())
    } else {
        ratings_of_movie(ratings.drop_last(), movie_id)
    }
}

/// The ratings that a list of references points to.
pub open spec fn referents(list: Seq<&Rating>) -> Seq<Rating> {
    Seq::new(list.len(), |i: int| *list[i])
}

impl Dataset {
    /// An empty dataset.
    pub fn new() -> (dataset: Self)
        ensures
            dataset.movies@ == Map::<u32, Movie>::empty(),
            dataset.users@ == Map::<u32, User>::empty(),
            dataset.ratings@ == Seq::<Rating>::empty(),
    {
        Dataset { movies: HashMap::new(), users: HashMap::new(), ratings: Vec::new() }
    }

    /// Adds a movie, in place of any movie with the same identifier.
    pub fn add_movie(&mut self, movie: Movie)
        ensures
            final(self).movies@ == old(self).movies@.insert(movie.id, movie),
            final(self).users@ == old(self).users@,
            final(self).ratings@ == old(self).ratings@,
    {
        self.movies.insert(movie.id, movie);
    }

    /// Adds a user, in place of any user with the same identifier.
    pub fn add_user(&mut self, user: User)
        ensures
            final(self).users@ == old(self).users@.insert(user.id, user),
            final(self).movies@ == old(self).movies@,
            final(self).ratings@ == old(self).ratings@,
    {
        self.users.insert(user.id, user);
    }

    /// Appends a rating.
    pub fn add_rating(&mut self, rating: Rating)
        ensures
            final(self).ratings@ == old(self).ratings@.push(rating),
            final(self).movies@ == old(self).movies@,
            final(self).users@ == old(self).users@,
    {
        self.ratings.push(rating);
    }

    /// The ratings given by `user_id`, in the order in which they were given.
    pub fn get_user_ratings(&self, user_id: u32) -> (found: Vec<&Rating>)
        ensures
            referents(found@) == ratings_by_user(self.ratings@, user_id),
    {
        let mut found: Vec<&Rating> = Vec::new();
        let mut i: usize = 0;
        proof {
            assert(self.ratings@.take(0) =~= Seq::<Rating>::empty());
            assert(referents(found@) =~= Seq::<Rating>::empty());
        }
        while i < self.ratings.len()
            invariant
                i <= self.ratings@.len(),
                referents(found@) == ratings_by_user(self.ratings@.take(i as int), user_id),
            decreases self.ratings@.len() - i,
        {
            proof {
                assert(self.ratings@.take(i + 1).drop_last() =~= self.ratings@.take(i as int));
                assert(referents(found@.push(&self.ratings@[i as int])) =~= referents(found@).push(
                    self.ratings@[i as int],
                ));
            }
            if self.ratings[i].user_id == user_id {
                found.push(&self.ratings[i]);
            }
            i = i + 1;
        }
        proof {
            assert(self.ratings@.take(i as int) =~= self.ratings@);
        }
        found
    }

    /// The ratings given to `movie_id`, in the order in which they were given.
    pub fn get_movie_ratings(&self, movie_id: u32) -> (found: Vec<&Rating>)
        ensures
            referents(found@) == ratings_of_movie(self.ratings@, movie_id),
    {
        let mut found: Vec<&Rating> = Vec::new();
        let mut i: usize = 0;
        proof {
            assert(self.ratings@.take(0) =~= Seq::<Rating>::empty());
            assert(referents(found@) =~= Seq::<Rating>::empty());
        }
        while i < self.ratings.len()
            invariant
                i <= self.ratings@.len(),
                referents(found@) == ratings_of_movie(self.ratings@.take(i as int), movie_id),
            decreases self.ratings@.len() - i,
        {
            proof {
                assert(self.ratings@.take(i + 1).drop_last() =~= self.ratings@.take(i as int));
                assert(referents(found@.push(&self.ratings@[i as int])) =~= referents(found@).push(
                    self.ratings@[i as int],
                ));
            }
            if self.ratings[i].movie_id == movie_id {
                found.push(&self.ratings[i]);
            }
            i = i + 1;
        }
        proof {
            assert(self.ratings@.take(i as int) =~= self.ratings@);
        }
        found
    }
}

} // verus!

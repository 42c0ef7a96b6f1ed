//! Recommendation by content: movies are described by labels for their genres,
//! director, actors and decade, and compared by the labels they share.

use vstd::prelude::*;
use vstd::std_specs::iter::IteratorSpec;
use vstd::string::StringExecFns;
use crate::anomaly::fixed::SCALE;
use crate::recommend::models::{Dataset, Movie};
use crate::text::{lowercase_of, to_lowercase, views};

verus! {

/// The decimal digit `d`, for `d < 10`.
pub open spec fn digit(d: nat) -> Seq<char> {
    if d == 0 {
        "0"@
    } else if d == 1 {
        "1"@
    } else if d == 2 {
        "2"@
    } else if d == 3 {
        "3"@
    } else if d == 4 {
        "4"@
    } else if d == 5 {
        "5"@
    } else if d == 6 {
        "6"@
    } else if d == 7 {
        "7"@
    } else if d == 8 {
        "8"@
    } else {
        "9"@
    }
}

/// The decimal numeral of `n`, without leading zeros.
pub open spec fn decimal(n: nat) -> Seq<char>
    decreases n,
{
    if n < 10 {
        digit(n)
    } else {
        decimal(n / 10) + digit(n % 10)
    }
}

/// The decimal digit `d`.
fn digit_text(d: u32) -> (text: &'static str)
    requires
        d < 10,
    ensures
        text@ == digit(d as nat),
{
    if d == 0 {
        "0"
    } else if d == 1 {
        "1"
    } else if d == 2 {
        "2"
    } else if d == 3 {
        "3"
    } else if d == 4 {
        "4"
    } else if d == 5 {
        "5"
    } else if d == 6 {
        "6"
    } else if d == 7 {
        "7"
    } else if d == 8 {
        "8"
    } else {
        "9"
    }
}

/// The decimal numeral of `n`.
pub fn decimal_text(n: u32) -> (text: String)
    ensures
        text@ == decimal(n as nat),
    decreases n,
{
    if n < 10 {
        String::from_str(digit_text(n))
    } else {
        decimal_text(n / 10).concat(digit_text(n % 10))
    }
}

/// The list with `item` at its end, unless it holds `item` already.
pub open spec fn with_item(list: Seq<Seq<char>>, item: Seq<char>) -> Seq<Seq<char>> {
    if list.contains(item) {
        list
    } else {
        list.push(item)
    }
}

/// The list with the label `prefix` + `name` added for each name.
pub open spec fn with_labels(list: Seq<Seq<char>>, prefix: Seq<char>, names: Seq<Seq<char>>) -> Seq<
    Seq<char>,
>
    decreases names.len(),
{
    if names.len() == 0 {
        list
    } else {
        with_item(with_labels(list, prefix, names.drop_last()), prefix + names.last())
    }
}

/// The labels for the given genres, director, actors and year, each once, in
/// that order; the year is labelled by its decade.
pub open spec fn labels(
    genres: Seq<Seq<char>>,
    director: Seq<char>,
    actors: Seq<Seq<char>>,
    year: u32,
) -> Seq<Seq<char>> {
    let with_genres = with_labels(Seq::empty(), "genre:"@, genres);
    let with_director = with_item(with_genres, "director:"@ + director);
    let with_actors = with_labels(with_director, "actor:"@, actors);
    with_item(with_actors, "decade:"@ + decimal((year / 10 * 10) as nat))
}

/// The names in lower case.
pub open spec fn lowered(names: Seq<Seq<char>>) -> Seq<Seq<char>> {
    Seq::new(names.len(), |i: int| lowercase_of(names[i]))
}

/// The labels that describe a movie: those for its genres, director and
/// actors in lower case and for its year.
pub open spec fn movie_features(movie: Movie) -> Seq<Seq<char>> {
    labels(
        lowered(views(movie.genres@)),
        lowercase_of(movie.director@),
        lowered(views(movie.actors@)),
        movie.year,
    )
}

/// Adding an item keeps a list free of duplicates.
pub proof fn lemma_with_item_unique(list: Seq<Seq<char>>, item: Seq<char>)
    requires
        list.no_duplicates(),
    ensures
        with_item(list, item).no_duplicates(),
        with_item(list, item).contains(item),
        forall|other: Seq<char>| list.contains(other) ==> with_item(list, item).contains(other),
{
    if !list.contains(item) {
        let grown = list.push(item);
        assert forall|i: int, j: int| 0 <= i < grown.len() && 0 <= j < grown.len() && i != j implies grown[i]
            != grown[j] by {
            if i < list.len() && j < list.len() {
            } else if i < list.len() {
                assert(list.contains(list[i]));
            } else {
                assert(list.contains(list[j]));
            }
        }
        assert(grown[list.len() as int] == item);
        assert forall|other: Seq<char>| list.contains(other) implies grown.contains(other) by {
            let k = choose|k: int| 0 <= k < list.len() && list[k] == other;
            assert(grown[k] == other);
        }
    }
}

/// Adding labels keeps a list free of duplicates.
pub proof fn lemma_with_labels_unique(list: Seq<Seq<char>>, prefix: Seq<char>, names: Seq<Seq<char>>)
    requires
        list.no_duplicates(),
    ensures
        with_labels(list, prefix, names).no_duplicates(),
    decreases names.len(),
{
    if names.len() > 0 {
        lemma_with_labels_unique(list, prefix, names.drop_last());
        lemma_with_item_unique(with_labels(list, prefix, names.drop_last()), prefix + names.last());
    }
}

/// Labels are free of duplicates.
pub proof fn lemma_labels_unique(
    genres: Seq<Seq<char>>,
    director: Seq<char>,
    actors: Seq<Seq<char>>,
    year: u32,
)
    ensures
        labels(genres, director, actors, year).no_duplicates(),
{
    let with_genres = with_labels(Seq::empty(), "genre:"@, genres);
    let with_director = with_item(with_genres, "director:"@ + director);
    let with_actors = with_labels(with_director, "actor:"@, actors);
    lemma_with_labels_unique(Seq::empty(), "genre:"@, genres);
    lemma_with_item_unique(with_genres, "director:"@ + director);
    lemma_with_labels_unique(with_director, "actor:"@, actors);
    lemma_with_item_unique(with_actors, "decade:"@ + decimal((year / 10 * 10) as nat));
}

/// Whether `item` is in the list.
fn holds(list: &Vec<String>, item: &String) -> (found: bool)
    ensures
        found == views(list@).contains(item@),
{
    let mut i: usize = 0;
    while i < list.len()
        invariant
            i <= list@.len(),
            forall|k: int| 0 <= k < i ==> views(list@)[k] != item@,
        decreases list@.len() - i,
    {
        if list[i] == *item {
            assert(views(list@)[i as int] == item@);
            return true;
        }
        i = i + 1;
    }
    false
}

/// Adds `item` to the list unless it is there already.
fn add_item(list: &mut Vec<String>, item: String)
    ensures
        views(final(list)@) == with_item(views(old(list)@), item@),
{
    if !holds(list, &item) {
        proof {
            assert(views(list@.push(item)) =~= views(list@).push(item@));
        }
        list.push(item);
    }
}

/// Adds the label `prefix` + `name` for each name.
fn add_labels(list: &mut Vec<String>, prefix: &str, names: &Vec<String>)
    ensures
        views(final(list)@) == with_labels(views(old(list)@), prefix@, views(names@)),
{
    let mut i: usize = 0;
    proof {
        assert(views(names@).take(0) =~= Seq::<Seq<char>>::empty());
    }
    while i < names.len()
        invariant
            i <= names@.len(),
            views(list@) == with_labels(views(old(list)@), prefix@, views(names@).take(i as int)),
        decreases names@.len() - i,
    {
        proof {
            assert(views(names@).take(i + 1).drop_last() =~= views(names@).take(i as int));
            assert(views(names@).take(i + 1).last() == names@[i as int]@);
        }
        add_item(list, String::from_str(prefix).concat(names[i].as_str()));
        i = i + 1;
    }
    proof {
        assert(views(names@).take(i as int) =~= views(names@));
    }
}

/// The names in lower case.
fn lower_all(names: &Vec<String>) -> (lower: Vec<String>)
    ensures
        views(lower@) == lowered(views(names@)),
{
    let mut lower: Vec<String> = Vec::new();
    let mut i: usize = 0;
    while i < names.len()
        invariant
            i <= names@.len(),
            lower@.len() == i,
            forall|k: int| 0 <= k < i ==> (#[trigger] lower@[k])@ == lowercase_of(names@[k]@),
        decreases names@.len() - i,
    {
        lower.push(to_lowercase(names[i].as_str()));
        i = i + 1;
    }
    proof {
        assert(views(lower@) =~= lowered(views(names@)));
    }
    lower
}

/// The labels for the given genres, director, actors and year, each once, in
/// that order; the year is labelled by its decade.
pub fn label(genres: &Vec<String>, director: &str, actors: &Vec<String>, year: u32) -> (features: Vec<
    String,
>)
    ensures
        views(features@) == labels(views(genres@), director@, views(actors@), year),
        views(features@).no_duplicates(),
{
    let mut features: Vec<String> = Vec::new();
    proof {
        assert(views(features@) =~= Seq::<Seq<char>>::empty());
        lemma_labels_unique(views(genres@), director@, views(actors@), year);
    }
    add_labels(&mut features, "genre:", genres);
    add_item(&mut features, String::from_str("director:").concat(director));
    add_labels(&mut features, "actor:", actors);
    let decade: u32 = (year / 10) * 10;
    add_item(&mut features, String::from_str("decade:").concat(decimal_text(decade).as_str()));
    features
}

/// The number of items of `first` that are in `second`.
pub open spec fn shared(first: Seq<Seq<char>>, second: Seq<Seq<char>>) -> nat
    decreases first.len(),
{
    if first.len() == 0 {
        0
    } else if second.contains(first.last()) {
        shared(first.drop_last(), second) + 1
    } else {
        shared(first.drop_last(), second)
    }
}

/// The shared items are at most as many as either list holds, if the first is
/// free of duplicates.
pub proof fn lemma_shared_bounds(first: Seq<Seq<char>>, second: Seq<Seq<char>>)
    ensures
        shared(first, second) <= first.len(),
    decreases first.len(),
{
    if first.len() > 0 {
        lemma_shared_bounds(first.drop_last(), second);
    }
}

/// The Jaccard similarity of two finite sets: the size of their intersection
/// over the size of their union, in millionths and rounded down; zero for two
/// empty sets.
pub open spec fn spec_jaccard(first: Set<Seq<char>>, second: Set<Seq<char>>) -> int {
    if first.union(second).len() == 0 {
        0
    } else {
        first.intersect(second).len() * SCALE / (first.union(second).len() as int)
    }
}

/// Recommends movies by the labels they share with what a user liked.
pub struct ContentBasedFilter<'a> {
    dataset: &'a Dataset,
}

impl<'a> ContentBasedFilter<'a> {
    /// The dataset that the filter reads.
    pub closed spec fn dataset(&self) -> &'a Dataset {
        self.dataset
    }

    /// A filter over `dataset`.
    pub fn new(dataset: &'a Dataset) -> (filter: Self)
        ensures
            filter.dataset() == dataset,
    {
        ContentBasedFilter { dataset }
    }

    /// The labels that describe a movie.
    pub fn build_movie_features(&self, movie: &Movie) -> (features: Vec<String>)
        ensures
            views(features@) == movie_features(*movie),
            views(features@).no_duplicates(),
    {
        let genres: Vec<String> = lower_all(&movie.genres);
        let director: String = to_lowercase(movie.director.as_str());
        let actors: Vec<String> = lower_all(&movie.actors);
        label(&genres, director.as_str(), &actors, movie.year)
    }

    /// The Jaccard similarity of two sets of labels, in millionths.
    pub fn jaccard_similarity(&self, set1: &Vec<String>, set2: &Vec<String>) -> (similarity: u64)
        requires
            views(set1@).no_duplicates(),
            views(set2@).no_duplicates(),
        ensures
            similarity == spec_jaccard(views(set1@).to_set(), views(set2@).to_set()),
            similarity <= SCALE,
    {
        let ghost first = views(set1@);
        let ghost second = views(set2@);
        proof {
            lemma_set_sizes(first, second);
        }
        if set1.len() == 0 && set2.len() == 0 {
            return 0;
        }
        let mut common: usize = 0;
        let mut i: usize = 0;
        proof {
            assert(first.take(0) =~= Seq::<Seq<char>>::empty());
        }
        while i < set1.len()
            invariant
                i <= set1@.len(),
                first == views(set1@),
                second == views(set2@),
                common == shared(first.take(i as int), second),
                common <= i,
            decreases set1@.len() - i,
        {
            proof {
                assert(first.take(i + 1).drop_last() =~= first.take(i as int));
                assert(first.take(i + 1).last() == set1@[i as int]@);
            }
            if holds(set2, &set1[i]) {
                common = common + 1;
            }
            i = i + 1;
        }
        proof {
            assert(first.take(i as int) =~= first);
            lemma_shared_at_most_second(first, second);
        }
        let union: u128 = (set1.len() as u128) + (set2.len() as u128) - (common as u128);
        assert(common * SCALE <= usize::MAX * 1_000_000) by (nonlinear_arith)
            requires
                0 <= common <= usize::MAX,
                SCALE == 1_000_000,
        ;
        let scaled: u128 = (common as u128) * (SCALE as u128);
        assert(scaled / union <= 1_000_000) by (nonlinear_arith)
            requires
                scaled == common * 1_000_000,
                common <= union,
                union >= 1,
        ;
        (scaled / union) as u64
    }
}

/// The shared items are at most as many as either list holds, if the first is
/// free of duplicates.
pub proof fn lemma_shared_at_most_second(first: Seq<Seq<char>>, second: Seq<Seq<char>>)
    requires
        first.no_duplicates(),
    ensures
        shared(first, second) <= second.len(),
        shared(first, second) <= first.len(),
{
    broadcast use {vstd::set::group_set_axioms, vstd::seq_lib::seq_to_set_is_finite};

    lemma_shared_bounds(first, second);
    lemma_shared_is_intersection(first, second);
    vstd::set_lib::lemma_len_intersect::<Seq<char>>(second.to_set(), first.to_set());
    assert(second.to_set().intersect(first.to_set()) =~= first.to_set().intersect(second.to_set()));
    second.lemma_cardinality_of_set();
}

/// For two lists without duplicates, the sizes of the intersection and of the
/// union of their sets are the number of shared items and the number of all
/// items less the shared ones.
pub proof fn lemma_set_sizes(first: Seq<Seq<char>>, second: Seq<Seq<char>>)
    requires
        first.no_duplicates(),
        second.no_duplicates(),
    ensures
        first.to_set().intersect(second.to_set()).len() == shared(first, second),
        first.to_set().union(second.to_set()).len() == first.len() + second.len() - shared(
            first,
            second,
        ),
{
    broadcast use {vstd::set::group_set_axioms, vstd::seq_lib::seq_to_set_is_finite};

    lemma_shared_is_intersection(first, second);
    first.unique_seq_to_set();
    second.unique_seq_to_set();
    vstd::set_lib::lemma_set_intersect_union_lens(first.to_set(), second.to_set());
}

/// The number of shared items is the size of the intersection of the two sets.
pub proof fn lemma_shared_is_intersection(first: Seq<Seq<char>>, second: Seq<Seq<char>>)
    requires
        first.no_duplicates(),
    ensures
        shared(first, second) == first.to_set().intersect(second.to_set()).len(),
    decreases first.len(),
{
    broadcast use {vstd::set::group_set_axioms, vstd::seq_lib::seq_to_set_is_finite};

    let both = first.to_set().intersect(second.to_set());
    if first.len() == 0 {
        assert(both =~= Set::<Seq<char>>::empty());
    } else {
        let front = first.drop_last();
        let last = first.last();
        assert(front.no_duplicates()) by {
            assert forall|i: int, j: int| 0 <= i < front.len() && 0 <= j < front.len() && i != j implies front[i]
                != front[j] by {
                assert(front[i] == first[i]);
                assert(front[j] == first[j]);
            }
        }
        lemma_shared_is_intersection(front, second);
        let before = front.to_set().intersect(second.to_set());
        assert(!front.contains(last)) by {
            if front.contains(last) {
                let k = choose|k: int| 0 <= k < front.len() && front[k] == last;
                assert(first[k] == first[first.len() - 1]);
            }
        }
        assert(first.to_set() =~= front.to_set().insert(last)) by {
            assert forall|x: Seq<char>| first.to_set().contains(x) == front.to_set().insert(
                last,
            ).contains(x) by {
                if first.contains(x) {
                    let k = choose|k: int| 0 <= k < first.len() && first[k] == x;
                    if k < first.len() - 1 {
                        assert(front[k] == x);
                    }
                }
                if front.contains(x) {
                    let k = choose|k: int| 0 <= k < front.len() && front[k] == x;
                    assert(first[k] == x);
                }
                if x == last {
                    assert(first[first.len() - 1] == x);
                }
            }
        }
        if second.contains(last) {
            assert(both =~= before.insert(last));
        } else {
            assert(both =~= before);
        }
    }
}


/// The identifiers of the movies of a dataset, each once, in the order in
/// which the map hands them out.
fn movie_ids(dataset: &Dataset) -> (ids: Vec<u32>)
    ensures
        ids@.no_duplicates(),
        forall|id: u32| ids@.contains(id) <==> dataset.movies@.contains_key(id),
{
    let mut ids: Vec<u32> = Vec::new();
    let keys = dataset.movies.keys();
    let ghost all: Seq<&u32> = keys.remaining();
    proof {
        vstd::std_specs::hash::axiom_spec_keys_iter(&dataset.movies);
        assert(all.take(0).unref() =~= Seq::<u32>::empty());
    }
    for key in it: keys
        invariant
            it.seq() == all,
            ids@.len() == it.index(),
            ids@ == all.take(ids@.len() as int).unref(),
    {
        proof {
            assert(all.take(it.index() + 1).unref() =~= all.take(it.index() as int).unref().push(*key));
        }
        ids.push(*key);
    }
    proof {
        assert(all.take(all.len() as int) =~= all);
        assert(ids@ == all.unref());
        assert forall|i: int, j: int| 0 <= i < ids@.len() && 0 <= j < ids@.len() && i != j implies ids@[i]
            != ids@[j] by {
            assert(all[i] != all[j]);
        }
        assert forall|id: u32| ids@.contains(id) <==> dataset.movies@.contains_key(id) by {
            assert(all.unref().to_set().contains(id) == dataset.movies@.dom().contains(id));
        }
    }
    ids
}


/// For each label, in the order in which the labels first came up, the sum
/// and the number of the ratings counted under it.
pub type Tally = Seq<(Seq<char>, nat, nat)>;

/// The tally with one more rating of `weight` counted under `label`.
pub open spec fn count_one(tally: Tally, label: Seq<char>, weight: nat) -> Tally
    decreases tally.len(),
{
    if tally.len() == 0 {
        seq![(label, weight, 1nat)]
    } else if tally[0].0 == label {
        tally.update(0, (label, tally[0].1 + weight, tally[0].2 + 1))
    } else {
        seq![tally[0]] + count_one(tally.drop_first(), label, weight)
    }
}

/// The tally with one more rating of `weight` counted under each of `labels`.
pub open spec fn count_all(tally: Tally, labels: Seq<Seq<char>>, weight: nat) -> Tally
    decreases labels.len(),
{
    if labels.len() == 0 {
        tally
    } else {
        count_one(count_all(tally, labels.drop_last(), weight), labels.last(), weight)
    }
}

/// The tally of the first `rated` ratings of a dataset for one user: each of
/// the user's ratings of a movie that the dataset knows is counted under every
/// label of that movie.
pub open spec fn user_tally(dataset: Dataset, user_id: u32, rated: nat) -> Tally
    decreases rated,
{
    if rated == 0 {
        Seq::empty()
    } else {
        let earlier = user_tally(dataset, user_id, (rated - 1) as nat);
        let rating = dataset.ratings@[rated - 1];
        if rating.user_id == user_id && dataset.movies@.contains_key(rating.movie_id) {
            count_all(earlier, movie_features(dataset.movies@[rating.movie_id]), rating.rating as nat)
        } else {
            earlier
        }
    }
}

/// The mean of `count` ratings that sum to `total`, rounded down.
pub open spec fn mean_of(total: nat, count: nat) -> nat {
    (total as int / count as int) as nat
}

/// The means of a tally: for each label the sum over the number, rounded
/// down.
pub open spec fn means(tally: Tally) -> Seq<(Seq<char>, nat)> {
    Seq::new(tally.len(), |i: int| (tally[i].0, mean_of(tally[i].1, tally[i].2)))
}

/// The profile of a user: for each label of a movie that the user rated, the
/// mean of the user's ratings of the movies with that label.
pub open spec fn user_profile(dataset: Dataset, user_id: u32) -> Seq<(Seq<char>, nat)> {
    means(user_tally(dataset, user_id, dataset.ratings@.len()))
}

/// What counting one more rating does to a tally: every entry keeps its label;
/// an entry either stays as it is or, if its label is the one counted, gains
/// the weight and one count; and if the tally grows, the new entry is the
/// label with the weight and a count of one.
pub proof fn lemma_count_one(tally: Tally, label: Seq<char>, weight: nat)
    ensures
        tally.len() <= count_one(tally, label, weight).len() <= tally.len() + 1,
        forall|i: int|
            0 <= i < tally.len() ==> {
                let before = #[trigger] tally[i];
                let after = count_one(tally, label, weight)[i];
                &&& after.0 == before.0
                &&& after == before || (before.0 == label && after.1 == before.1 + weight && after.2
                    == before.2 + 1)
            },
        count_one(tally, label, weight).len() == tally.len() + 1 ==> count_one(
            tally,
            label,
            weight,
        ).last() == (label, weight, 1nat),
    decreases tally.len(),
{
    if tally.len() > 0 && tally[0].0 != label {
        let rest = tally.drop_first();
        lemma_count_one(rest, label, weight);
        let counted = count_one(rest, label, weight);
        let result = seq![tally[0]] + counted;
        assert forall|i: int| 0 <= i < tally.len() implies {
            let before = #[trigger] tally[i];
            let after = result[i];
            &&& after.0 == before.0
            &&& after == before || (before.0 == label && after.1 == before.1 + weight && after.2
                == before.2 + 1)
        } by {
            if i > 0 {
                assert(rest[i - 1] == tally[i]);
                assert(result[i] == counted[i - 1]);
            }
        }
        if result.len() == tally.len() + 1 {
            assert(result.last() == counted.last());
        }
    }
}

/// The entries of a tally that is being built.
pub open spec fn tally_view(entries: Seq<(String, u128, usize)>) -> Tally {
    Seq::new(entries.len(), |i: int| (entries[i].0@, entries[i].1 as nat, entries[i].2 as nat))
}

/// The entries of a profile.
pub open spec fn profile_view(entries: Seq<(String, u32)>) -> Seq<(Seq<char>, nat)> {
    Seq::new(entries.len(), |i: int| (entries[i].0@, entries[i].1 as nat))
}

/// Counting a rating under a label changes the first entry with that label,
/// or appends an entry where there is none.
pub proof fn lemma_count_one_at(tally: Tally, label: Seq<char>, weight: nat, at: int)
    requires
        0 <= at <= tally.len(),
        forall|k: int| 0 <= k < at ==> (#[trigger] tally[k]).0 != label,
        at < tally.len() ==> tally[at].0 == label,
    ensures
        count_one(tally, label, weight) == if at < tally.len() {
            tally.update(at, (label, tally[at].1 + weight, tally[at].2 + 1))
        } else {
            tally.push((label, weight, 1nat))
        },
    decreases tally.len(),
{
    if tally.len() == 0 {
        assert(seq![(label, weight, 1nat)] =~= tally.push((label, weight, 1nat)));
    } else if at == 0 {
    } else {
        let rest = tally.drop_first();
        assert forall|k: int| 0 <= k < at - 1 implies (#[trigger] rest[k]).0 != label by {
            assert(rest[k] == tally[k + 1]);
        }
        lemma_count_one_at(rest, label, weight, at - 1);
        if at < tally.len() {
            assert(rest[at - 1] == tally[at]);
            assert(seq![tally[0]] + rest.update(
                at - 1,
                (label, tally[at].1 + weight, tally[at].2 + 1),
            ) =~= tally.update(at, (label, tally[at].1 + weight, tally[at].2 + 1)));
        } else {
            assert(seq![tally[0]] + rest.push((label, weight, 1nat)) =~= tally.push(
                (label, weight, 1nat),
            ));
        }
    }
}

/// The index of the first entry with the label, or the number of entries if
/// there is none.
fn position(entries: &Vec<(String, u128, usize)>, label: &String) -> (at: usize)
    ensures
        at <= entries@.len(),
        forall|k: int| 0 <= k < at ==> (#[trigger] tally_view(entries@)[k]).0 != label@,
        at < entries@.len() ==> tally_view(entries@)[at as int].0 == label@,
{
    let mut i: usize = 0;
    while i < entries.len()
        invariant
            i <= entries@.len(),
            forall|k: int| 0 <= k < i ==> (#[trigger] tally_view(entries@)[k]).0 != label@,
        decreases entries@.len() - i,
    {
        if entries[i].0 == *label {
            return i;
        }
        i = i + 1;
    }
    i
}

/// Counts one more rating of `weight` under `label`.
fn bump(entries: &mut Vec<(String, u128, usize)>, label: String, weight: u32)
    requires
        forall|i: int|
            0 <= i < old(entries)@.len() && (#[trigger] old(entries)@[i]).0@ == label@ ==> old(
                entries,
            )@[i].2 < usize::MAX && old(entries)@[i].1 + weight <= u128::MAX,
    ensures
        tally_view(final(entries)@) == count_one(tally_view(old(entries)@), label@, weight as nat),
{
    let ghost before = tally_view(entries@);
    let at: usize = position(entries, &label);
    proof {
        lemma_count_one_at(before, label@, weight as nat, at as int);
    }
    if at < entries.len() {
        let total: u128 = entries[at].1 + (weight as u128);
        let count: usize = entries[at].2 + 1;
        entries.set(at, (label, total, count));
        proof {
            assert(tally_view(entries@) =~= before.update(
                at as int,
                (label@, total as nat, count as nat),
            ));
        }
    } else {
        proof {
            assert(tally_view(entries@.push((label, weight as u128, 1usize))) =~= before.push(
                (label@, weight as nat, 1nat),
            ));
        }
        entries.push((label, weight as u128, 1));
    }
}

/// Whether every entry of the tally counts at least one rating and at most
/// `seen` ratings, or one more if its label is among `extra`, and sums no more
/// than so many ratings of the largest weight.
pub open spec fn within(tally: Tally, seen: nat, extra: Seq<Seq<char>>) -> bool {
    forall|i: int|
        0 <= i < tally.len() ==> {
            let entry = #[trigger] tally[i];
            &&& 1 <= entry.2
            &&& entry.2 <= seen + if extra.contains(entry.0) {
                1nat
            } else {
                0nat
            }
            &&& entry.1 <= entry.2 * u32::MAX
        }
}

/// Counting a rating under a label that is not among `extra` keeps the tally
/// within bounds once the label is added to `extra`.
pub proof fn lemma_count_one_within(
    tally: Tally,
    seen: nat,
    extra: Seq<Seq<char>>,
    label: Seq<char>,
    weight: nat,
)
    requires
        within(tally, seen, extra),
        !extra.contains(label),
        weight <= u32::MAX,
    ensures
        within(count_one(tally, label, weight), seen, extra.push(label)),
{
    let result = count_one(tally, label, weight);
    let more = extra.push(label);
    lemma_count_one(tally, label, weight);
    assert(more[extra.len() as int] == label);
    assert forall|i: int| 0 <= i < result.len() implies {
        let entry = #[trigger] result[i];
        &&& 1 <= entry.2
        &&& entry.2 <= seen + if more.contains(entry.0) {
            1nat
        } else {
            0nat
        }
        &&& entry.1 <= entry.2 * u32::MAX
    } by {
        if i < tally.len() {
            let before = tally[i];
            if extra.contains(before.0) {
                let k = choose|k: int| 0 <= k < extra.len() && extra[k] == before.0;
                assert(more[k] == before.0);
            }
        } else {
            assert(result[i] == result.last());
        }
    }
}


/// The weight of the first entry with the label, if there is one.
pub open spec fn weight_of(profile: Seq<(Seq<char>, nat)>, label: Seq<char>) -> Option<nat>
    decreases profile.len(),
{
    if profile.len() == 0 {
        None
    } else if profile[0].0 == label {
        Some(profile[0].1)
    } else {
        weight_of(profile.drop_first(), label)
    }
}

/// The sum of the weights that the profile has for the labels, and the number
/// of labels for which it has one.
pub open spec fn matched(profile: Seq<(Seq<char>, nat)>, labels: Seq<Seq<char>>) -> (nat, nat)
    decreases labels.len(),
{
    if labels.len() == 0 {
        (0, 0)
    } else {
        let earlier = matched(profile, labels.drop_last());
        match weight_of(profile, labels.last()) {
            Some(weight) => (earlier.0 + weight, earlier.1 + 1),
            None => earlier,
        }
    }
}

/// The score of a movie with the given labels for a profile: the mean of the
/// weights that the profile has for the labels, rounded down, or zero where
/// it has none.
pub open spec fn spec_movie_score(profile: Seq<(Seq<char>, nat)>, labels: Seq<Seq<char>>) -> nat {
    let (total, count) = matched(profile, labels);
    if count > 0 {
        mean_of(total, count)
    } else {
        0
    }
}

/// The weight that the profile has for the label.
fn find_weight(profile: &Vec<(String, u32)>, label: &String) -> (weight: Option<u32>)
    ensures
        match weight {
            Some(w) => weight_of(profile_view(profile@), label@) == Some(w as nat),
            None => weight_of(profile_view(profile@), label@) is None,
        },
{
    let ghost view = profile_view(profile@);
    let mut i: usize = 0;
    proof {
        assert(view.skip(0) =~= view);
    }
    while i < profile.len()
        invariant
            i <= profile@.len(),
            view == profile_view(profile@),
            weight_of(view, label@) == weight_of(view.skip(i as int), label@),
        decreases profile@.len() - i,
    {
        proof {
            assert(view.skip(i as int)[0] == view[i as int]);
            assert(view.skip(i as int).drop_first() =~= view.skip(i + 1));
        }
        if profile[i].0 == *label {
            return Some(profile[i].1);
        }
        i = i + 1;
    }
    None
}

impl<'a> ContentBasedFilter<'a> {
    /// The profile of a user: for each label of a movie that the user rated,
    /// the mean of the user's ratings of the movies with that label.
    pub fn build_user_profile(&self, user_id: u32) -> (profile: Vec<(String, u32)>)
        ensures
            profile_view(profile@) == user_profile(*self.dataset(), user_id),
    {
        let ghost data = *self.dataset;
        let mut tally: Vec<(String, u128, usize)> = Vec::new();
        let ratings: usize = self.dataset.ratings.len();
        let mut k: usize = 0;
        proof {
            assert(tally_view(tally@) =~= Seq::empty());
        }
        while k < ratings
            invariant
                k <= ratings,
                ratings == self.dataset.ratings@.len(),
                data == *self.dataset,
                tally_view(tally@) == user_tally(data, user_id, k as nat),
                within(tally_view(tally@), k as nat, Seq::empty()),
            decreases self.dataset.ratings@.len() - k,
        {
            let user: u32 = self.dataset.ratings[k].user_id;
            let weight: u32 = self.dataset.ratings[k].rating;
            let ghost earlier = tally_view(tally@);
            if user == user_id {
                match self.dataset.movies.get(&self.dataset.ratings[k].movie_id) {
                    None => {},
                    Some(movie) => {
                        let features: Vec<String> = self.build_movie_features(movie);
                        let ghost labels = views(features@);
                        let mut j: usize = 0;
                        proof {
                            assert(labels.take(0) =~= Seq::<Seq<char>>::empty());
                        }
                        while j < features.len()
                            invariant
                                j <= features@.len(),
                                k < ratings,
                                labels == views(features@),
                                labels.no_duplicates(),
                                tally_view(tally@) == count_all(
                                    earlier,
                                    labels.take(j as int),
                                    weight as nat,
                                ),
                                within(tally_view(tally@), k as nat, labels.take(j as int)),
                            decreases features@.len() - j,
                        {
                            let label: String = features[j].clone();
                            proof {
                                let seen = labels.take(j as int);
                                assert(labels.take(j + 1).drop_last() =~= seen);
                                assert(labels.take(j + 1) =~= seen.push(label@));
                                assert(!seen.contains(label@)) by {
                                    if seen.contains(label@) {
                                        let i = choose|i: int| 0 <= i < seen.len() && seen[i] == label@;
                                        assert(labels[i] == labels[j as int]);
                                    }
                                }
                                lemma_count_one_within(
                                    tally_view(tally@),
                                    k as nat,
                                    seen,
                                    label@,
                                    weight as nat,
                                );
                                assert forall|i: int|
                                    0 <= i < tally@.len() && (#[trigger] tally@[i]).0@
                                        == label@ implies tally@[i].2 < usize::MAX && tally@[i].1
                                    + weight <= u128::MAX by {
                                    let entry = tally_view(tally@)[i];
                                    assert(entry.0 == label@);
                                    assert(!seen.contains(entry.0));
                                    assert(entry.2 <= k);
                                    assert(entry.1 <= entry.2 * u32::MAX);
                                    assert(entry.1 == tally@[i].1);
                                    assert(entry.2 == tally@[i].2);
                                    assert(entry.2 * u32::MAX <= usize::MAX * u32::MAX) by (nonlinear_arith)
                                        requires
                                            entry.2 <= usize::MAX,
                                    ;
                                    assert(usize::MAX * u32::MAX + u32::MAX <= u128::MAX) by (nonlinear_arith)
                                        requires
                                            usize::MAX <= u64::MAX,
                                    ;
                                }
                            }
                            bump(&mut tally, label, weight);
                            j = j + 1;
                        }
                        proof {
                            assert(labels.take(j as int) =~= labels);
                        }
                    },
                }
            }
            proof {
                let now = tally_view(tally@);
                assert(now == user_tally(data, user_id, (k + 1) as nat));
                assert(within(now, (k + 1) as nat, Seq::empty())) by {
                    assert forall|i: int| 0 <= i < now.len() implies {
                        let entry = #[trigger] now[i];
                        &&& 1 <= entry.2
                        &&& entry.2 <= (k + 1) as nat + if Seq::<Seq<char>>::empty().contains(entry.0) {
                            1nat
                        } else {
                            0nat
                        }
                        &&& entry.1 <= entry.2 * u32::MAX
                    } by {}
                }
            }
            k = k + 1;
        }
        // the mean under each label
        let mut profile: Vec<(String, u32)> = Vec::new();
        let mut i: usize = 0;
        let ghost totals = tally_view(tally@);
        while i < tally.len()
            invariant
                i <= tally@.len(),
                totals == tally_view(tally@),
                totals.len() == tally@.len(),
                within(totals, self.dataset.ratings@.len(), Seq::empty()),
                profile@.len() == i,
                forall|e: int| 0 <= e < i ==> (#[trigger] profile_view(profile@)[e]) == means(totals)[e],
            decreases tally@.len() - i,
        {
            let total: u128 = tally[i].1;
            let count: usize = tally[i].2;
            proof {
                let entry = totals[i as int];
                assert(means(totals).len() == totals.len());
                assert(1 <= entry.2 && entry.1 <= entry.2 * u32::MAX);
                assert(total / (count as u128) <= u32::MAX) by (nonlinear_arith)
                    requires
                        1 <= count,
                        total <= count * u32::MAX,
                ;
            }
            let mean: u32 = (total / (count as u128)) as u32;
            let label: String = tally[i].0.clone();
            proof {
                let grown = profile_view(profile@.push((label, mean)));
                assert(means(totals)[i as int] == (
                    totals[i as int].0,
                    mean_of(totals[i as int].1, totals[i as int].2),
                ));
                assert(grown[i as int] == (label@, mean as nat));
                assert(label@ == totals[i as int].0);
                assert(mean as nat == mean_of(totals[i as int].1, totals[i as int].2));
                assert(grown[i as int] == means(totals)[i as int]);
                assert forall|e: int| 0 <= e < i implies (#[trigger] grown[e]) == means(totals)[e] by {
                    assert(grown[e] == profile_view(profile@)[e]);
                }
            }
            profile.push((label, mean));
            i = i + 1;
        }
        proof {
            assert(profile_view(profile@) =~= means(totals));
        }
        profile
    }

    /// The score of a movie for a profile: the mean of the weights that the
    /// profile has for the labels of the movie, or zero where it has none.
    pub fn calculate_movie_score(&self, user_profile: &Vec<(String, u32)>, movie: &Movie) -> (score: u32)
        ensures
            score == spec_movie_score(profile_view(user_profile@), movie_features(*movie)),
    {
        let features: Vec<String> = self.build_movie_features(movie);
        let ghost profile = profile_view(user_profile@);
        let ghost labels = views(features@);
        let mut total: u128 = 0;
        let mut count: usize = 0;
        let mut j: usize = 0;
        proof {
            assert(labels.take(0) =~= Seq::<Seq<char>>::empty());
        }
        while j < features.len()
            invariant
                j <= features@.len(),
                profile == profile_view(user_profile@),
                labels == views(features@),
                matched(profile, labels.take(j as int)) == (total as nat, count as nat),
                count <= j,
                total <= count * u32::MAX,
            decreases features@.len() - j,
        {
            proof {
                assert(labels.take(j + 1).drop_last() =~= labels.take(j as int));
                assert(labels.take(j + 1).last() == features@[j as int]@);
            }
            match find_weight(user_profile, &features[j]) {
                Some(weight) => {
                    total = total + (weight as u128);
                    count = count + 1;
                },
                None => {},
            }
            j = j + 1;
        }
        proof {
            assert(labels.take(j as int) =~= labels);
        }
        if count > 0 {
            assert(total / (count as u128) <= u32::MAX) by (nonlinear_arith)
                requires
                    1 <= count,
                    total <= count * u32::MAX,
            ;
            (total / (count as u128)) as u32
        } else {
            0
        }
    }
}


/// Whether the user has rated the movie.
pub open spec fn has_rated(dataset: Dataset, user_id: u32, movie_id: u32) -> bool {
    exists|i: int|
        0 <= i < dataset.ratings@.len() && (#[trigger] dataset.ratings@[i]).user_id == user_id
            && dataset.ratings@[i].movie_id == movie_id
}

/// The score of a movie of the dataset for a user: that of its labels for the
/// user's profile.
pub open spec fn content_score(dataset: Dataset, user_id: u32, movie_id: u32) -> nat {
    spec_movie_score(user_profile(dataset, user_id), movie_features(dataset.movies@[movie_id]))
}

/// Whether a movie may be recommended to a user: the dataset knows it, the
/// user has not rated it, and its score for the user is positive.
pub open spec fn recommendable(dataset: Dataset, user_id: u32, movie_id: u32) -> bool {
    &&& dataset.movies@.contains_key(movie_id)
    &&& !has_rated(dataset, user_id, movie_id)
    &&& content_score(dataset, user_id, movie_id) > 0
}

/// The test of whether a movie may be recommended to the user.
pub open spec fn recommendable_to(dataset: Dataset, user_id: u32) -> spec_fn(u32) -> bool {
    |movie_id: u32| recommendable(dataset, user_id, movie_id)
}

/// The scores of the movies for the user.
pub open spec fn scores_for(dataset: Dataset, user_id: u32) -> spec_fn(u32) -> nat {
    |movie_id: u32| content_score(dataset, user_id, movie_id)
}

/// The similarity of two movies of the dataset: the Jaccard similarity of
/// their sets of labels.
pub open spec fn similarity(dataset: Dataset, first: u32, second: u32) -> nat {
    spec_jaccard(
        movie_features(dataset.movies@[first]).to_set(),
        movie_features(dataset.movies@[second]).to_set(),
    ) as nat
}

/// Whether a movie counts as similar to `movie_id`: the dataset knows it, it
/// is another movie, and its similarity is positive.
pub open spec fn similar(dataset: Dataset, movie_id: u32, other: u32) -> bool {
    &&& dataset.movies@.contains_key(other)
    &&& other != movie_id
    &&& similarity(dataset, movie_id, other) > 0
}

/// The test of whether a movie counts as similar to `movie_id`.
pub open spec fn similar_to(dataset: Dataset, movie_id: u32) -> spec_fn(u32) -> bool {
    |other: u32| similar(dataset, movie_id, other)
}

/// The similarities of the movies to `movie_id`.
pub open spec fn similarities_to(dataset: Dataset, movie_id: u32) -> spec_fn(u32) -> nat {
    |other: u32| similarity(dataset, movie_id, other)
}

/// Whether the list holds `id`.
pub open spec fn lists(list: Seq<(u32, u32)>, id: u32) -> bool {
    exists|k: int| 0 <= k < list.len() && (#[trigger] list[k]).0 == id
}

/// Whether the scores of the list do not increase.
pub open spec fn descending(list: Seq<(u32, u32)>) -> bool {
    forall|i: int, j: int| 0 <= i < j < list.len() ==> (#[trigger] list[i]).1 >= (#[trigger] list[j]).1
}

/// Whether no identifier is listed twice.
pub open spec fn distinct_ids(list: Seq<(u32, u32)>) -> bool {
    forall|i: int, j: int| 0 <= i < j < list.len() ==> (#[trigger] list[i]).0 != (#[trigger] list[j]).0
}

/// Whether `list` holds the best `n` of the eligible identifiers with their
/// scores: at most `n` entries, each an eligible identifier with its score, no
/// identifier twice, scores not increasing, and an eligible identifier left
/// out only where the list is full and no listed score is lower than its own.
pub open spec fn best_of(
    list: Seq<(u32, u32)>,
    n: nat,
    eligible: spec_fn(u32) -> bool,
    score: spec_fn(u32) -> nat,
) -> bool {
    &&& list.len() <= n
    &&& forall|k: int|
        0 <= k < list.len() ==> eligible((#[trigger] list[k]).0) && list[k].1 == score(list[k].0)
    &&& distinct_ids(list)
    &&& descending(list)
    &&& forall|id: u32|
        #![trigger eligible(id)]
        eligible(id) && !lists(list, id) ==> list.len() == n && forall|k: int|
            0 <= k < list.len() ==> (#[trigger] list[k]).1 >= score(id)
}

/// Puts `item` into the list behind the entries whose score is at least as
/// high, and says where.
fn insert_ranked(list: &mut Vec<(u32, u32)>, item: (u32, u32)) -> (at: usize)
    requires
        descending(old(list)@),
    ensures
        at <= old(list)@.len(),
        final(list)@ == old(list)@.insert(at as int, item),
        descending(final(list)@),
{
    let mut at: usize = list.len();
    while at > 0 && list[at - 1].1 < item.1
        invariant
            at <= list@.len(),
            *list == *old(list),
            forall|k: int| at <= k < list@.len() ==> (#[trigger] list@[k]).1 < item.1,
        decreases at,
    {
        at = at - 1;
    }
    proof {
        let before = list@;
        let after = before.insert(at as int, item);
        assert forall|i: int, j: int| 0 <= i < j < after.len() implies (#[trigger] after[i]).1 >= (
        #[trigger] after[j]).1 by {
            if j < at {
                assert(after[i] == before[i] && after[j] == before[j]);
            } else if j == at {
                assert(after[i] == before[i]);
                assert(before[i].1 >= before[at - 1].1);
            } else if i < at {
                assert(after[i] == before[i] && after[j] == before[j - 1]);
            } else if i == at {
                assert(after[j] == before[j - 1]);
            } else {
                assert(after[i] == before[i - 1] && after[j] == before[j - 1]);
            }
        }
    }
    list.insert(at, item);
    at
}

/// Whether `list` ranks the eligible identifiers among `ids`: each entry is
/// one of them with its score, none twice, scores not increasing, and none is
/// left out.
pub open spec fn ranks(
    list: Seq<(u32, u32)>,
    ids: Seq<u32>,
    eligible: spec_fn(u32) -> bool,
    score: spec_fn(u32) -> nat,
) -> bool {
    &&& forall|k: int|
        0 <= k < list.len() ==> ids.contains((#[trigger] list[k]).0) && eligible(list[k].0)
            && list[k].1 == score(list[k].0)
    &&& distinct_ids(list)
    &&& descending(list)
    &&& forall|i: int| 0 <= i < ids.len() && eligible(#[trigger] ids[i]) ==> lists(list, ids[i])
}

/// A ranking stays one when an identifier that is not eligible joins the
/// identifiers.
pub proof fn lemma_ranks_skip(
    list: Seq<(u32, u32)>,
    ids: Seq<u32>,
    id: u32,
    eligible: spec_fn(u32) -> bool,
    score: spec_fn(u32) -> nat,
)
    requires
        ranks(list, ids, eligible, score),
        !eligible(id),
    ensures
        ranks(list, ids.push(id), eligible, score),
{
    let more = ids.push(id);
    assert forall|k: int| 0 <= k < list.len() implies more.contains((#[trigger] list[k]).0) by {
        let i = choose|i: int| 0 <= i < ids.len() && ids[i] == list[k].0;
        assert(more[i] == list[k].0);
    }
    assert forall|i: int| 0 <= i < more.len() && eligible(#[trigger] more[i]) implies lists(
        list,
        more[i],
    ) by {
        assert(more[i] == ids[i]);
    }
}

/// A ranking stays one when a new eligible identifier joins the identifiers
/// and is put into the list with its score, in a place that keeps the scores
/// from increasing.
pub proof fn lemma_ranks_insert(
    list: Seq<(u32, u32)>,
    ids: Seq<u32>,
    id: u32,
    at: int,
    eligible: spec_fn(u32) -> bool,
    score: spec_fn(u32) -> nat,
)
    requires
        ranks(list, ids, eligible, score),
        !ids.contains(id),
        eligible(id),
        0 <= at <= list.len(),
        score(id) <= u32::MAX,
        descending(list.insert(at, (id, score(id) as u32))),
    ensures
        ranks(list.insert(at, (id, score(id) as u32)), ids.push(id), eligible, score),
{
    let item = (id, score(id) as u32);
    let grown = list.insert(at, item);
    let more = ids.push(id);
    assert(more[ids.len() as int] == id);
    assert forall|k: int| 0 <= k < grown.len() implies more.contains((#[trigger] grown[k]).0)
        && eligible(grown[k].0) && grown[k].1 == score(grown[k].0) by {
        if k != at {
            let old_k = if k < at {
                k
            } else {
                k - 1
            };
            assert(grown[k] == list[old_k]);
            let i = choose|i: int| 0 <= i < ids.len() && ids[i] == list[old_k].0;
            assert(more[i] == list[old_k].0);
        }
    }
    assert forall|i: int, j: int| 0 <= i < j < grown.len() implies (#[trigger] grown[i]).0 != (
    #[trigger] grown[j]).0 by {
        let old_i = if i < at {
            i
        } else {
            i - 1
        };
        let old_j = if j < at {
            j
        } else {
            j - 1
        };
        if i != at && j != at {
            assert(grown[i] == list[old_i] && grown[j] == list[old_j]);
        } else if i == at {
            assert(grown[j] == list[old_j]);
            assert(ids.contains(list[old_j].0));
        } else {
            assert(grown[i] == list[old_i]);
            assert(ids.contains(list[old_i].0));
        }
    }
    assert forall|i: int| 0 <= i < more.len() && eligible(#[trigger] more[i]) implies lists(
        grown,
        more[i],
    ) by {
        if i < ids.len() {
            assert(more[i] == ids[i]);
            let k = choose|k: int| 0 <= k < list.len() && (#[trigger] list[k]).0 == ids[i];
            if k < at {
                assert(grown[k] == list[k]);
            } else {
                assert(grown[k + 1] == list[k]);
            }
        } else {
            assert(grown[at] == item);
        }
    }
}

/// The first `n` entries of a ranking of all identifiers are the best `n` of
/// the eligible ones.
pub proof fn lemma_best_of_ranking(
    list: Seq<(u32, u32)>,
    ids: Seq<u32>,
    n: nat,
    eligible: spec_fn(u32) -> bool,
    score: spec_fn(u32) -> nat,
)
    requires
        ranks(list, ids, eligible, score),
        forall|id: u32| #![trigger eligible(id)] eligible(id) ==> ids.contains(id),
    ensures
        best_of(
            if n < list.len() {
                list.take(n as int)
            } else {
                list
            },
            n,
            eligible,
            score,
        ),
{
    let best = if n < list.len() {
        list.take(n as int)
    } else {
        list
    };
    assert forall|id: u32| #![trigger eligible(id)] eligible(id) && !lists(best, id) implies best.len()
        == n && forall|k: int| 0 <= k < best.len() ==> (#[trigger] best[k]).1 >= score(id) by {
        let i = choose|i: int| 0 <= i < ids.len() && ids[i] == id;
        assert(eligible(ids[i]));
        assert(lists(list, id));
        let at = choose|at: int| 0 <= at < list.len() && (#[trigger] list[at]).0 == id;
        if at < best.len() {
            assert(best[at] == list[at]);
        }
        assert forall|k: int| 0 <= k < best.len() implies (#[trigger] best[k]).1 >= score(id) by {
            assert(best[k] == list[k]);
            assert(list[k].1 >= list[at].1);
        }
    }
}

impl<'a> ContentBasedFilter<'a> {
    /// Whether the user has rated the movie.
    fn user_has_rated(&self, user_id: u32, movie_id: u32) -> (rated: bool)
        ensures
            rated == has_rated(*self.dataset(), user_id, movie_id),
    {
        let mut i: usize = 0;
        while i < self.dataset.ratings.len()
            invariant
                i <= self.dataset.ratings@.len(),
                forall|k: int|
                    0 <= k < i ==> !((#[trigger] self.dataset.ratings@[k]).user_id == user_id
                        && self.dataset.ratings@[k].movie_id == movie_id),
            decreases self.dataset.ratings@.len() - i,
        {
            if self.dataset.ratings[i].user_id == user_id && self.dataset.ratings[i].movie_id
                == movie_id {
                return true;
            }
            i = i + 1;
        }
        false
    }

    /// The `n` movies that fit the user's profile best, with their scores,
    /// best first: among the movies that the user has not rated and whose
    /// score is positive.
    pub fn recommend(&self, user_id: u32, n: usize) -> (recommendations: Vec<(u32, u32)>)
        ensures
            best_of(
                recommendations@,
                n as nat,
                recommendable_to(*self.dataset(), user_id),
                scores_for(*self.dataset(), user_id),
            ),
    {
        let ghost data = *self.dataset;
        let ghost eligible = recommendable_to(data, user_id);
        let ghost score = scores_for(data, user_id);
        let profile: Vec<(String, u32)> = self.build_user_profile(user_id);
        let ids: Vec<u32> = movie_ids(self.dataset);
        let mut ranked: Vec<(u32, u32)> = Vec::new();
        let mut i: usize = 0;
        while i < ids.len()
            invariant
                i <= ids@.len(),
                data == *self.dataset,
                eligible == recommendable_to(data, user_id),
                score == scores_for(data, user_id),
                profile_view(profile@) == user_profile(data, user_id),
                ids@.no_duplicates(),
                forall|id: u32| ids@.contains(id) <==> data.movies@.contains_key(id),
                ranks(ranked@, ids@.take(i as int), eligible, score),
            decreases ids@.len() - i,
        {
            let id: u32 = ids[i];
            let ghost seen = ids@.take(i as int);
            proof {
                assert(ids@.take(i + 1) =~= seen.push(id));
                assert(ids@.contains(id));
                assert(!seen.contains(id)) by {
                    if seen.contains(id) {
                        let k = choose|k: int| 0 <= k < seen.len() && seen[k] == id;
                        assert(ids@[k] == ids@[i as int]);
                    }
                }
            }
            let mut listed: bool = false;
            if !self.user_has_rated(user_id, id) {
                match self.dataset.movies.get(&id) {
                    None => {},
                    Some(movie) => {
                        let value: u32 = self.calculate_movie_score(&profile, movie);
                        if value > 0 {
                            let ghost before = ranked@;
                            let at: usize = insert_ranked(&mut ranked, (id, value));
                            proof {
                                assert(eligible(id));
                                assert(score(id) == value);
                                lemma_ranks_insert(before, seen, id, at as int, eligible, score);
                            }
                            listed = true;
                        }
                    },
                }
            }
            proof {
                if !listed {
                    assert(!eligible(id));
                    lemma_ranks_skip(ranked@, seen, id, eligible, score);
                }
            }
            i = i + 1;
        }
        let ghost all = ranked@;
        proof {
            assert(ids@.take(i as int) =~= ids@);
            assert forall|id: u32| #![trigger eligible(id)] eligible(id) implies ids@.contains(id) by {
                assert(recommendable(data, user_id, id));
            }
            lemma_best_of_ranking(all, ids@, n as nat, eligible, score);
        }
        ranked.truncate(n);
        proof {
            if n < all.len() {
                assert(ranked@ =~= all.take(n as int));
            } else {
                assert(ranked@ =~= all);
            }
        }
        ranked
    }
}


impl<'a> ContentBasedFilter<'a> {
    /// The `n` movies most similar to `movie_id`, with their similarities,
    /// most similar first: among the other movies whose similarity is
    /// positive. None if the dataset does not know the movie.
    pub fn find_similar_movies(&self, movie_id: u32, n: usize) -> (similar: Vec<(u32, u32)>)
        ensures
            !self.dataset().movies@.contains_key(movie_id) ==> similar@.len() == 0,
            self.dataset().movies@.contains_key(movie_id) ==> best_of(
                similar@,
                n as nat,
                similar_to(*self.dataset(), movie_id),
                similarities_to(*self.dataset(), movie_id),
            ),
    {
        let ghost data = *self.dataset;
        let ghost eligible = similar_to(data, movie_id);
        let ghost score = similarities_to(data, movie_id);
        let movie: &Movie = match self.dataset.movies.get(&movie_id) {
            Some(movie) => movie,
            None => {
                return Vec::new();
            },
        };
        let features: Vec<String> = self.build_movie_features(movie);
        let ids: Vec<u32> = movie_ids(self.dataset);
        let mut ranked: Vec<(u32, u32)> = Vec::new();
        let mut i: usize = 0;
        while i < ids.len()
            invariant
                i <= ids@.len(),
                data == *self.dataset,
                data.movies@.contains_key(movie_id),
                eligible == similar_to(data, movie_id),
                score == similarities_to(data, movie_id),
                views(features@) == movie_features(data.movies@[movie_id]),
                views(features@).no_duplicates(),
                ids@.no_duplicates(),
                forall|id: u32| ids@.contains(id) <==> data.movies@.contains_key(id),
                ranks(ranked@, ids@.take(i as int), eligible, score),
            decreases ids@.len() - i,
        {
            let id: u32 = ids[i];
            let ghost seen = ids@.take(i as int);
            proof {
                assert(ids@.take(i + 1) =~= seen.push(id));
                assert(ids@.contains(id));
                assert(!seen.contains(id)) by {
                    if seen.contains(id) {
                        let k = choose|k: int| 0 <= k < seen.len() && seen[k] == id;
                        assert(ids@[k] == ids@[i as int]);
                    }
                }
            }
            let mut listed: bool = false;
            if id != movie_id {
                match self.dataset.movies.get(&id) {
                    None => {},
                    Some(other) => {
                        let other_features: Vec<String> = self.build_movie_features(other);
                        let value: u64 = self.jaccard_similarity(&features, &other_features);
                        if value > 0 {
                            let ghost before = ranked@;
                            let at: usize = insert_ranked(&mut ranked, (id, value as u32));
                            proof {
                                assert(similarity(data, movie_id, id) == value);
                                assert(eligible(id));
                                assert(score(id) == value);
                                lemma_ranks_insert(before, seen, id, at as int, eligible, score);
                            }
                            listed = true;
                        }
                    },
                }
            }
            proof {
                if !listed {
                    assert(!eligible(id));
                    lemma_ranks_skip(ranked@, seen, id, eligible, score);
                }
            }
            i = i + 1;
        }
        let ghost all = ranked@;
        proof {
            assert(ids@.take(i as int) =~= ids@);
            assert forall|id: u32| #![trigger eligible(id)] eligible(id) implies ids@.contains(id) by {
                assert(similar(data, movie_id, id));
            }
            lemma_best_of_ranking(all, ids@, n as nat, eligible, score);
        }
        ranked.truncate(n);
        proof {
            if n < all.len() {
                assert(ranked@ =~= all.take(n as int));
            } else {
                assert(ranked@ =~= all);
            }
        }
        ranked
    }
}

} // verus!

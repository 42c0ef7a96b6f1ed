//! Isolation trees: randomized, depth-limited binary partition trees.

use vstd::prelude::*;
use vstd::arithmetic::power2::pow2;
use rand::rngs::StdRng;
use crate::anomaly::features::{rows, NUM_FEATURES};
use crate::anomaly::fixed::{
    average_path_length, floor_log2, lemma_floor_log2_bounds, spec_average_path, spec_floor_log2,
    SCALE,
};
use crate::anomaly::random::uniform_between;

verus! {

/// No tree is deeper than this: the depth limit of a sample of any size that a
/// machine can hold.
pub const MAX_DEPTH: usize = 64;

/// A randomized binary partition tree over a sample of feature vectors.
#[derive(Debug)]
pub enum IsolationTree {
    /// A leaf: the number of training points that landed there, and the depth
    /// at which it was created.
    Leaf { size: usize, depth: usize },
    /// An internal node: points whose value of `feature` is below `threshold`
    /// go left, the others right.
    Node { feature: usize, threshold: i128, left: Box<IsolationTree>, right: Box<IsolationTree> },
}

/// Whether every point has one value per feature.
pub open spec fn full_width(points: Seq<Seq<i128>>) -> bool {
    forall|k: int| 0 <= k < points.len() ==> (#[trigger] points[k]).len() == NUM_FEATURES
}

/// The points whose value of `feature` is below `threshold`, in order.
pub open spec fn below(points: Seq<Seq<i128>>, feature: int, threshold: i128) -> Seq<Seq<i128>>
    decreases points.len(),
{
    if points.len() == 0 {
        points
    } else if points.last()[feature] < threshold {
        below(points.drop_last(), feature, threshold).push(points.last())
    } else {
        below(points.drop_last(), feature, threshold)
    }
}

/// The points whose value of `feature` is at least `threshold`, in order.
pub open spec fn at_or_above(points: Seq<Seq<i128>>, feature: int, threshold: i128) -> Seq<
    Seq<i128>,
>
    decreases points.len(),
{
    if points.len() == 0 {
        points
    } else if points.last()[feature] >= threshold {
        at_or_above(points.drop_last(), feature, threshold).push(points.last())
    } else {
        at_or_above(points.drop_last(), feature, threshold)
    }
}

/// Whether all points have the same value of `feature`.
pub open spec fn constant_feature(points: Seq<Seq<i128>>, feature: int) -> bool {
    forall|a: int, b: int|
        0 <= a < points.len() && 0 <= b < points.len() ==> (#[trigger] points[a])[feature] == (
        #[trigger] points[b])[feature]
}

/// Whether all points agree in every feature.
pub open spec fn all_constant(points: Seq<Seq<i128>>) -> bool {
    forall|f: int| 0 <= f < NUM_FEATURES ==> constant_feature(points, f)
}

/// The depth limit `ceil(log2(max(n, 2)))` of a tree built from `n` points.
pub open spec fn spec_depth_limit(n: int) -> nat {
    if n <= 2 {
        1
    } else {
        spec_floor_log2(n - 1) + 1
    }
}

/// The depth limit is the least `l` with `max(n, 2) <= 2^l`.
pub proof fn lemma_depth_limit_is_ceiling(n: int)
    ensures
        spec_depth_limit(n) >= 1,
        pow2((spec_depth_limit(n) - 1) as nat) < (if n <= 2 { 2 } else { n }) <= pow2(spec_depth_limit(n)),
{
    vstd::arithmetic::power2::lemma2_to64();
    if n > 2 {
        lemma_floor_log2_bounds(n - 1);
        vstd::arithmetic::power2::lemma_pow2_unfold(spec_floor_log2(n - 1) + 1);
    }
}

/// The depth limit `ceil(log2(max(n, 2)))` of a tree built from `n` points.
pub fn depth_limit(n: usize) -> (limit: usize)
    ensures
        limit == spec_depth_limit(n as int),
        1 <= limit <= MAX_DEPTH,
        pow2((limit - 1) as nat) < (if n <= 2 { 2 } else { n as int }) <= pow2(limit as nat),
{
    proof {
        lemma_depth_limit_is_ceiling(n as int);
    }
    if n <= 2 {
        1
    } else {
        let (k, _p): (u32, u64) = floor_log2((n - 1) as u64);
        (k as usize) + 1
    }
}

impl IsolationTree {
    /// Every split is on an existing feature, and no leaf lies deeper than
    /// `MAX_DEPTH`.
    pub open spec fn wf(self) -> bool
        decreases self,
    {
        match self {
            IsolationTree::Leaf { size, depth } => depth <= MAX_DEPTH,
            IsolationTree::Node { feature, threshold, left, right } => {
                &&& feature < NUM_FEATURES
                &&& left.wf()
                &&& right.wf()
            },
        }
    }

    /// Every leaf lies at depth `limit` or above and holds at most `size` points.
    pub open spec fn bounded(self, limit: nat, size: nat) -> bool
        decreases self,
    {
        match self {
            IsolationTree::Leaf { size: s, depth } => depth <= limit && s <= size,
            IsolationTree::Node { feature, threshold, left, right } => {
                &&& left.bounded(limit, size)
                &&& right.bounded(limit, size)
            },
        }
    }

    /// Whether this is a tree that construction may produce at `depth` from
    /// `points` under the depth limit `limit`.
    ///
    /// A leaf records the number of points and the depth, and stands only where
    /// at most one point is left, the limit is reached, or the points agree in
    /// every feature. A node splits on a feature at a threshold with at least
    /// one point below it and one at or above it, and its children are such
    /// trees for the two parts, one level down.
    pub open spec fn isolates(self, points: Seq<Seq<i128>>, depth: nat, limit: nat) -> bool
        decreases self,
    {
        match self {
            IsolationTree::Leaf { size, depth: d } => {
                &&& size == points.len()
                &&& d == depth
                &&& (points.len() <= 1 || depth >= limit || all_constant(points))
            },
            IsolationTree::Node { feature, threshold, left, right } => {
                &&& points.len() > 1
                &&& depth < limit
                &&& feature < NUM_FEATURES
                &&& exists|a: int, b: int|
                    0 <= a < points.len() && 0 <= b < points.len() && (#[trigger] points[a])[feature as int]
                        < threshold <= (#[trigger] points[b])[feature as int]
                &&& left.isolates(below(points, feature as int, threshold), depth + 1, limit)
                &&& right.isolates(at_or_above(points, feature as int, threshold), depth + 1, limit)
            },
        }
    }

    /// The size and the depth of the leaf that `point` reaches: at each node
    /// left when its value of the split feature is below the threshold, right
    /// otherwise.
    pub open spec fn leaf_of(self, point: Seq<i128>) -> (nat, nat)
        decreases self,
    {
        match self {
            IsolationTree::Leaf { size, depth } => (size as nat, depth as nat),
            IsolationTree::Node { feature, threshold, left, right } => {
                if point[feature as int] < threshold {
                    left.leaf_of(point)
                } else {
                    right.leaf_of(point)
                }
            },
        }
    }

    /// The path length of `point`: the depth of the leaf it reaches plus
    /// `c(size of that leaf)`, in millionths.
    pub open spec fn spec_path_length(self, point: Seq<i128>) -> int {
        self.leaf_of(point).1 * SCALE + spec_average_path(self.leaf_of(point).0 as int)
    }

    /// The isolation depth of `point` in this tree, in millionths.
    pub fn path_length(&self, point: &[i128]) -> (length: u64)
        requires
            self.wf(),
            point@.len() == NUM_FEATURES,
        ensures
            length == self.spec_path_length(point@),
        decreases self,
    {
        match self {
            IsolationTree::Leaf { size, depth } => {
                let correction: u64 = average_path_length(*size as u64);
                proof {
                    crate::anomaly::fixed::lemma_average_path_magnitude(*size as int);
                }
                (*depth as u64) * SCALE + correction
            },
            IsolationTree::Node { feature, threshold, left, right } => {
                if point[*feature] < *threshold {
                    left.path_length(point)
                } else {
                    right.path_length(point)
                }
            },
        }
    }
}


/// The points that `members` names, in that order.
pub open spec fn select(points: Seq<Seq<i128>>, members: Seq<usize>) -> Seq<Seq<i128>> {
    Seq::new(members.len(), |k: int| points[members[k] as int])
}

/// Whether every member is an index into a batch of `n` points.
pub open spec fn members_within(members: Seq<usize>, n: int) -> bool {
    forall|k: int| 0 <= k < members.len() ==> #[trigger] members[k] < n
}

/// Appending a point appends it to the part on its side of the threshold.
pub proof fn lemma_split_push(points: Seq<Seq<i128>>, point: Seq<i128>, feature: int, threshold: i128)
    ensures
        below(points.push(point), feature, threshold) == if point[feature] < threshold {
            below(points, feature, threshold).push(point)
        } else {
            below(points, feature, threshold)
        },
        at_or_above(points.push(point), feature, threshold) == if point[feature] >= threshold {
            at_or_above(points, feature, threshold).push(point)
        } else {
            at_or_above(points, feature, threshold)
        },
{
    assert(points.push(point).drop_last() =~= points);
}

/// The two parts of a split together hold every point once, and each part
/// holds only full-width points if the whole does.
pub proof fn lemma_split_sizes(points: Seq<Seq<i128>>, feature: int, threshold: i128)
    ensures
        below(points, feature, threshold).len() + at_or_above(points, feature, threshold).len()
            == points.len(),
        full_width(points) ==> full_width(below(points, feature, threshold)) && full_width(
            at_or_above(points, feature, threshold),
        ),
    decreases points.len(),
{
    if points.len() > 0 {
        lemma_split_sizes(points.drop_last(), feature, threshold);
        if full_width(points) {
            assert forall|k: int| 0 <= k < points.drop_last().len() implies (
            #[trigger] points.drop_last()[k]).len() == NUM_FEATURES by {
                assert(points.drop_last()[k] == points[k]);
            }
            assert(points.last() == points[points.len() - 1]);
        }
    }
}

/// A bound on leaf sizes may be raised.
pub proof fn lemma_bounded_monotone(tree: IsolationTree, limit: nat, size: nat, larger: nat)
    requires
        tree.bounded(limit, size),
        size <= larger,
    ensures
        tree.bounded(limit, larger),
    decreases tree,
{
    match tree {
        IsolationTree::Leaf { size: s, depth } => {},
        IsolationTree::Node { feature, threshold, left, right } => {
            lemma_bounded_monotone(*left, limit, size, larger);
            lemma_bounded_monotone(*right, limit, size, larger);
        },
    }
}

/// A tree that construction may produce from `points` under a limit of at most
/// `MAX_DEPTH` is well-formed, and its leaves respect the limit and hold no
/// more points than there were.
pub proof fn lemma_isolates_bounded(tree: IsolationTree, points: Seq<Seq<i128>>, depth: nat, limit: nat)
    requires
        tree.isolates(points, depth, limit),
        depth <= limit <= MAX_DEPTH,
    ensures
        tree.wf(),
        tree.bounded(limit, points.len()),
    decreases tree,
{
    match tree {
        IsolationTree::Leaf { size, depth: d } => {},
        IsolationTree::Node { feature, threshold, left, right } => {
            let low = below(points, feature as int, threshold);
            let high = at_or_above(points, feature as int, threshold);
            lemma_split_sizes(points, feature as int, threshold);
            lemma_isolates_bounded(*left, low, depth + 1, limit);
            lemma_isolates_bounded(*right, high, depth + 1, limit);
            lemma_bounded_monotone(*left, limit, low.len(), points.len());
            lemma_bounded_monotone(*right, limit, high.len(), points.len());
        },
    }
}

/// Whether `low` and `high` are the smallest and the largest value of
/// `feature` among the points.
pub open spec fn spans(points: Seq<Seq<i128>>, feature: int, low: i128, high: i128) -> bool {
    &&& forall|k: int| 0 <= k < points.len() ==> low <= (#[trigger] points[k])[feature] <= high
    &&& exists|a: int| 0 <= a < points.len() && (#[trigger] points[a])[feature] == low
    &&& exists|b: int| 0 <= b < points.len() && (#[trigger] points[b])[feature] == high
}

/// Smallest and largest value of `feature` among the member points.
pub fn feature_range(data: &Vec<Vec<i128>>, members: &Vec<usize>, feature: usize) -> (range: (
    i128,
    i128,
))
    requires
        members@.len() > 0,
        feature < NUM_FEATURES,
        full_width(rows(data@)),
        members_within(members@, data@.len() as int),
    ensures
        spans(select(rows(data@), members@), feature as int, range.0, range.1),
{
    let ghost points = select(rows(data@), members@);
    proof {
        assert(rows(data@)[members@[0] as int].len() == NUM_FEATURES);
    }
    let first: i128 = data[members[0]][feature];
    let mut low: i128 = first;
    let mut high: i128 = first;
    let ghost mut at_low: int = 0;
    let ghost mut at_high: int = 0;
    let mut k: usize = 1;
    while k < members.len()
        invariant
            1 <= k <= members@.len(),
            feature < NUM_FEATURES,
            full_width(rows(data@)),
            members_within(members@, data@.len() as int),
            points == select(rows(data@), members@),
            forall|j: int| 0 <= j < k ==> low <= (#[trigger] points[j])[feature as int] <= high,
            0 <= at_low < k && points[at_low][feature as int] == low,
            0 <= at_high < k && points[at_high][feature as int] == high,
        decreases members@.len() - k,
    {
        proof {
            assert(rows(data@)[members@[k as int] as int].len() == NUM_FEATURES);
        }
        let value: i128 = data[members[k]][feature];
        if value < low {
            low = value;
            proof {
                at_low = k as int;
            }
        }
        if value > high {
            high = value;
            proof {
                at_high = k as int;
            }
        }
        k = k + 1;
    }
    (low, high)
}

/// Whether the candidates are the features on which the points differ, in
/// increasing order, each with its smallest and largest value.
pub open spec fn lists_varying(candidates: Seq<(usize, i128, i128)>, points: Seq<Seq<i128>>) -> bool {
    &&& forall|c: int|
        0 <= c < candidates.len() ==> {
            let (feature, low, high) = #[trigger] candidates[c];
            &&& feature < NUM_FEATURES
            &&& low < high
            &&& spans(points, feature as int, low, high)
        }
    &&& forall|c: int, d: int|
        0 <= c < d < candidates.len() ==> (#[trigger] candidates[c]).0 < (#[trigger] candidates[d]).0
    &&& forall|f: int|
        0 <= f < NUM_FEATURES && !constant_feature(points, f) ==> exists|c: int|
            0 <= c < candidates.len() && (#[trigger] candidates[c]).0 == f
}

/// The features on which the member points differ, in increasing order, each
/// with its smallest and largest value.
pub fn varying_features(data: &Vec<Vec<i128>>, members: &Vec<usize>) -> (candidates: Vec<
    (usize, i128, i128),
>)
    requires
        members@.len() > 0,
        full_width(rows(data@)),
        members_within(members@, data@.len() as int),
    ensures
        lists_varying(candidates@, select(rows(data@), members@)),
        candidates@.len() == 0 ==> all_constant(select(rows(data@), members@)),
{
    let ghost points = select(rows(data@), members@);
    let mut candidates: Vec<(usize, i128, i128)> = Vec::new();
    let mut feature: usize = 0;
    while feature < NUM_FEATURES
        invariant
            feature <= NUM_FEATURES,
            members@.len() > 0,
            full_width(rows(data@)),
            members_within(members@, data@.len() as int),
            points == select(rows(data@), members@),
            forall|c: int|
                0 <= c < candidates@.len() ==> {
                    let (f, low, high) = #[trigger] candidates@[c];
                    &&& f < feature
                    &&& low < high
                    &&& spans(points, f as int, low, high)
                },
            forall|c: int, d: int|
                0 <= c < d < candidates@.len() ==> (#[trigger] candidates@[c]).0 < (
                #[trigger] candidates@[d]).0,
            forall|f: int|
                0 <= f < feature && !constant_feature(points, f) ==> exists|c: int|
                    0 <= c < candidates@.len() && (#[trigger] candidates@[c]).0 == f,
        decreases NUM_FEATURES - feature,
    {
        let (low, high): (i128, i128) = feature_range(data, members, feature);
        let ghost before = candidates@;
        if low < high {
            candidates.push((feature, low, high));
        }
        proof {
            assert forall|f: int|
                0 <= f < feature + 1 && !constant_feature(points, f) implies exists|c: int|
                0 <= c < candidates@.len() && (#[trigger] candidates@[c]).0 == f by {
                if f < feature {
                    let c = choose|c: int| 0 <= c < before.len() && (#[trigger] before[c]).0 == f;
                    assert(candidates@[c] == before[c]);
                } else {
                    // the feature varies, so its smallest value is below its largest
                    assert(low < high);
                    assert(candidates@[before.len() as int].0 == feature);
                }
            }
        }
        feature = feature + 1;
    }
    candidates
}

/// Splits the members by their value of `feature`: below `threshold` first,
/// the others second, each part in the order of `members`.
pub fn partition(data: &Vec<Vec<i128>>, members: &Vec<usize>, feature: usize, threshold: i128) -> (parts: (
    Vec<usize>,
    Vec<usize>,
))
    requires
        feature < NUM_FEATURES,
        full_width(rows(data@)),
        members_within(members@, data@.len() as int),
    ensures
        members_within(parts.0@, data@.len() as int),
        members_within(parts.1@, data@.len() as int),
        select(rows(data@), parts.0@) == below(select(rows(data@), members@), feature as int, threshold),
        select(rows(data@), parts.1@) == at_or_above(select(rows(data@), members@), feature as int, threshold),
{
    let mut low: Vec<usize> = Vec::new();
    let mut high: Vec<usize> = Vec::new();
    let mut k: usize = 0;
    proof {
        assert(select(rows(data@), members@.take(0)) =~= Seq::<Seq<i128>>::empty());
        assert(select(rows(data@), low@) =~= Seq::<Seq<i128>>::empty());
        assert(select(rows(data@), high@) =~= Seq::<Seq<i128>>::empty());
    }
    while k < members.len()
        invariant
            k <= members@.len(),
            feature < NUM_FEATURES,
            full_width(rows(data@)),
            members_within(members@, data@.len() as int),
            members_within(low@, data@.len() as int),
            members_within(high@, data@.len() as int),
            select(rows(data@), low@) == below(select(rows(data@), members@.take(k as int)), feature as int, threshold),
            select(rows(data@), high@) == at_or_above(
                select(rows(data@), members@.take(k as int)),
                feature as int,
                threshold,
            ),
        decreases members@.len() - k,
    {
        let member: usize = members[k];
        proof {
            assert(rows(data@)[member as int].len() == NUM_FEATURES);
            let seen = select(rows(data@), members@.take(k as int));
            let point = rows(data@)[member as int];
            assert(select(rows(data@), members@.take(k + 1)) =~= seen.push(point));
            lemma_split_push(seen, point, feature as int, threshold);
            assert(select(rows(data@), low@.push(member)) =~= select(rows(data@), low@).push(point));
            assert(select(rows(data@), high@.push(member)) =~= select(rows(data@), high@).push(point));
        }
        if data[member][feature] < threshold {
            low.push(member);
        } else {
            high.push(member);
        }
        k = k + 1;
    }
    proof {
        assert(members@.take(k as int) =~= members@);
    }
    (low, high)
}

/// Builds the tree for the member points at `depth`.
pub(crate) fn build_node(
    data: &Vec<Vec<i128>>,
    members: &Vec<usize>,
    depth: usize,
    limit: usize,
    rng: &mut StdRng,
) -> (tree: IsolationTree)
    requires
        depth <= limit <= MAX_DEPTH,
        full_width(rows(data@)),
        members_within(members@, data@.len() as int),
    ensures
        tree.isolates(select(rows(data@), members@), depth as nat, limit as nat),
        tree.wf(),
        tree.bounded(limit as nat, members@.len()),
    decreases limit - depth,
{
    let ghost points = select(rows(data@), members@);
    if members.len() <= 1 || depth >= limit {
        return IsolationTree::Leaf { size: members.len(), depth };
    }
    let candidates: Vec<(usize, i128, i128)> = varying_features(data, members);
    if candidates.len() == 0 {
        return IsolationTree::Leaf { size: members.len(), depth };
    }
    let choice: i128 = uniform_between(rng, 0, (candidates.len() - 1) as i128);
    let (feature, low, high): (usize, i128, i128) = candidates[choice as usize];
    let threshold: i128 = uniform_between(rng, low + 1, high);
    let (lower, upper): (Vec<usize>, Vec<usize>) = partition(data, members, feature, threshold);
    let left: IsolationTree = build_node(data, &lower, depth + 1, limit, rng);
    let right: IsolationTree = build_node(data, &upper, depth + 1, limit, rng);
    let tree = IsolationTree::Node { feature, threshold, left: Box::new(left), right: Box::new(right) };
    proof {
        assert(spans(points, feature as int, low, high));
        let a = choose|a: int| 0 <= a < points.len() && (#[trigger] points[a])[feature as int] == low;
        let b = choose|b: int| 0 <= b < points.len() && (#[trigger] points[b])[feature as int] == high;
        assert(points[a][feature as int] < threshold <= points[b][feature as int]);
        assert(tree.isolates(points, depth as nat, limit as nat));
        lemma_isolates_bounded(tree, points, depth as nat, limit as nat);
    }
    tree
}

impl IsolationTree {
    /// Builds an isolation tree from a sample, under the depth limit
    /// `ceil(log2(max(sample size, 2)))`.
    ///
    /// Which feature and threshold a node splits on is drawn from `rng`: a
    /// feature among those on which the node's points differ, and a threshold
    /// above the smallest and up to the largest of their values of it.
    pub fn build(sample: &Vec<Vec<i128>>, rng: &mut StdRng) -> (tree: IsolationTree)
        requires
            full_width(rows(sample@)),
        ensures
            tree.isolates(rows(sample@), 0, spec_depth_limit(sample@.len() as int)),
            tree.wf(),
            tree.bounded(spec_depth_limit(sample@.len() as int), sample@.len()),
    {
        let mut members: Vec<usize> = Vec::new();
        let mut k: usize = 0;
        while k < sample.len()
            invariant
                k <= sample@.len(),
                members@.len() == k,
                forall|j: int| 0 <= j < k ==> members@[j] == j,
            decreases sample@.len() - k,
        {
            members.push(k);
            k = k + 1;
        }
        proof {
            assert(select(rows(sample@), members@) =~= rows(sample@));
        }
        build_node(sample, &members, 0, depth_limit(sample.len()), rng)
    }
}

} // verus!

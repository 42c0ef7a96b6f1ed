//! The isolation forest: an ensemble of isolation trees and its anomaly score.

use vstd::prelude::*;
use rand::rngs::StdRng;
use crate::anomaly::features::{rows, NUM_FEATURES};
use crate::anomaly::fixed::{
    average_path_length, exp2_neg, lemma_average_path_bounds, lemma_exp2_neg_bounds,
    lemma_path_ratio, spec_average_path, spec_exp2_neg, SCALE,
};
use crate::anomaly::random::distinct_indices;
use crate::anomaly::tree::{
    build_node, depth_limit, full_width, members_within, select, spec_depth_limit, IsolationTree,
};

verus! {

/// An ensemble of isolation trees, with the subsample size that each was built
/// from.
#[derive(Debug)]
pub struct IsolationForest {
    trees: Vec<IsolationTree>,
    subsample_size: usize,
}

/// Whether `tree` is a tree that construction may produce from some `size`
/// distinct points of `data`.
pub open spec fn grown_from(tree: IsolationTree, data: Seq<Seq<i128>>, size: nat) -> bool {
    exists|members: Seq<usize>|
        {
            &&& members.len() == size
            &&& members_within(members, data.len() as int)
            &&& members.no_duplicates()
            &&& tree.isolates(#[trigger] select(data, members), 0, spec_depth_limit(size as int))
        }
}

/// The sum of the path lengths of `point` over `trees`.
pub open spec fn total_path(trees: Seq<IsolationTree>, point: Seq<i128>) -> int
    decreases trees.len(),
{
    if trees.len() == 0 {
        0
    } else {
        total_path(trees.drop_last(), point) + trees.last().spec_path_length(point)
    }
}

/// Whether every tree is well-formed and respects the depth limit and leaf
/// size of a sample of `size` points.
pub open spec fn trees_bounded(trees: Seq<IsolationTree>, size: nat) -> bool {
    forall|i: int|
        0 <= i < trees.len() ==> (#[trigger] trees[i]).wf() && trees[i].bounded(
            spec_depth_limit(size as int),
            size,
        )
}

/// The path length of a point in a bounded tree is below `19 c(size)`.
pub proof fn lemma_path_bounded(tree: IsolationTree, size: nat, point: Seq<i128>)
    requires
        size >= 2,
        tree.bounded(spec_depth_limit(size as int), size),
    ensures
        0 <= tree.spec_path_length(point) < 19 * spec_average_path(size as int),
    decreases tree,
{
    match tree {
        IsolationTree::Leaf { size: s, depth } => {
            if size == 2 {
                assert(crate::anomaly::fixed::spec_floor_log2(1) == 0);
            }
            lemma_path_ratio(size as int, depth as int, s as int);
        },
        IsolationTree::Node { feature, threshold, left, right } => {
            lemma_path_bounded(*left, size, point);
            lemma_path_bounded(*right, size, point);
        },
    }
}

/// The sum of the path lengths over bounded trees is at most
/// `n (19 c(size) - 1)` for `n` trees.
pub proof fn lemma_total_path_bounded(trees: Seq<IsolationTree>, size: nat, point: Seq<i128>)
    requires
        size >= 2,
        trees_bounded(trees, size),
    ensures
        0 <= total_path(trees, point) <= trees.len() * (19 * spec_average_path(size as int) - 1),
    decreases trees.len(),
{
    let m = 19 * spec_average_path(size as int) - 1;
    if trees.len() > 0 {
        let front = trees.drop_last();
        assert forall|i: int| 0 <= i < front.len() implies (#[trigger] front[i]).wf()
            && front[i].bounded(spec_depth_limit(size as int), size) by {
            assert(front[i] == trees[i]);
        }
        lemma_total_path_bounded(front, size, point);
        assert(trees.last() == trees[trees.len() - 1]);
        lemma_path_bounded(trees.last(), size, point);
        let n = front.len() as int;
        assert((n + 1) * m == n * m + m) by (nonlinear_arith);
    } else {
        assert(trees.len() * m == 0) by (nonlinear_arith)
            requires
                trees.len() == 0,
        ;
    }
}

/// A subsample of `amount` of `length` points, without replacement: every
/// point where all are asked for, and else a random draw.
fn subsample(rng: &mut StdRng, length: usize, amount: usize) -> (members: Vec<usize>)
    requires
        amount <= length,
    ensures
        members@.len() == amount,
        members_within(members@, length as int),
        members@.no_duplicates(),
{
    if amount < length {
        distinct_indices(rng, length, amount)
    } else {
        let mut members: Vec<usize> = Vec::new();
        let mut k: usize = 0;
        while k < length
            invariant
                k <= length,
                members@.len() == k,
                forall|j: int| 0 <= j < k ==> members@[j] == j,
            decreases length - k,
        {
            members.push(k);
            k = k + 1;
        }
        members
    }
}

impl IsolationForest {
    /// The trees of the forest, in order.
    pub closed spec fn trees(&self) -> Seq<IsolationTree> {
        self.trees@
    }

    /// The number of points that each tree was built from.
    pub closed spec fn sample_size(&self) -> nat {
        self.subsample_size as nat
    }

    /// The invariant of a forest: at least one tree, a subsample size above
    /// one, and every tree well-formed within the depth limit and leaf size of
    /// that subsample size.
    pub open spec fn wf(&self) -> bool {
        &&& self.trees().len() >= 1
        &&& self.sample_size() >= 2
        &&& trees_bounded(self.trees(), self.sample_size())
    }

    /// The mean path length of `point` across the trees, rounded down.
    pub open spec fn spec_mean_path(&self, point: Seq<i128>) -> int {
        total_path(self.trees(), point) / (self.trees().len() as int)
    }

    /// The anomaly score `2^(-E / c(sample size))` of `point`, where `E` is its
    /// mean path length.
    pub open spec fn spec_score(&self, point: Seq<i128>) -> int {
        spec_exp2_neg(
            self.spec_mean_path(point) * SCALE / spec_average_path(self.sample_size() as int),
        )
    }

    /// The exponent `E / c(sample size)` of the score is below 19.
    pub proof fn lemma_exponent_bounded(&self, point: Seq<i128>)
        requires
            self.wf(),
        ensures
            0 <= self.spec_mean_path(point) < 19 * spec_average_path(self.sample_size() as int),
            0 <= self.spec_mean_path(point) * SCALE / spec_average_path(self.sample_size() as int)
                < 19 * SCALE,
    {
        let c = spec_average_path(self.sample_size() as int);
        let n = self.trees().len() as int;
        let total = total_path(self.trees(), point);
        let mean = self.spec_mean_path(point);
        let s = SCALE as int;
        lemma_average_path_bounds(self.sample_size() as int);
        lemma_total_path_bounded(self.trees(), self.sample_size(), point);
        assert(0 <= total / n <= 19 * c - 1) by (nonlinear_arith)
            requires
                n >= 1,
                0 <= total <= n * (19 * c - 1),
        ;
        assert(0 <= mean * s / c < 19 * s) by (nonlinear_arith)
            requires
                0 <= mean <= 19 * c - 1,
                c >= 1,
                s == 1_000_000,
        ;
    }

    /// The score of any point lies in `(0, 1]`.
    pub proof fn lemma_score_bounded(&self, point: Seq<i128>)
        requires
            self.wf(),
        ensures
            0 < self.spec_score(point) <= SCALE,
    {
        self.lemma_exponent_bounded(point);
        lemma_exp2_neg_bounds(
            self.spec_mean_path(point) * SCALE / spec_average_path(self.sample_size() as int),
        );
    }

    /// A point that is isolated no later than another scores no lower: the
    /// score does not increase with the mean path length.
    pub proof fn lemma_score_antitone(&self, quick: Seq<i128>, slow: Seq<i128>)
        requires
            self.wf(),
            self.spec_mean_path(quick) <= self.spec_mean_path(slow),
        ensures
            self.spec_score(slow) <= self.spec_score(quick),
    {
        let c = spec_average_path(self.sample_size() as int);
        let s = SCALE as int;
        let a = self.spec_mean_path(quick);
        let b = self.spec_mean_path(slow);
        lemma_average_path_bounds(self.sample_size() as int);
        self.lemma_exponent_bounded(quick);
        self.lemma_exponent_bounded(slow);
        assert(a * s <= b * s) by (nonlinear_arith)
            requires
                a <= b,
                s == 1_000_000,
        ;
        vstd::arithmetic::div_mod::lemma_div_is_ordered(a * s, b * s, c);
        crate::anomaly::fixed::lemma_exp2_neg_monotone(a * s / c, b * s / c);
    }

    /// A point of average isolation depth scores exactly one half: where the
    /// mean path length is `c(sample size)`.
    pub proof fn lemma_score_of_average_depth(&self, point: Seq<i128>)
        requires
            self.wf(),
            self.spec_mean_path(point) == spec_average_path(self.sample_size() as int),
        ensures
            self.spec_score(point) == crate::anomaly::fixed::HALF,
    {
        let c = spec_average_path(self.sample_size() as int);
        let s = SCALE as int;
        lemma_average_path_bounds(self.sample_size() as int);
        assert(c * s / c == s) by (nonlinear_arith)
            requires
                c >= 1,
        ;
        crate::anomaly::fixed::lemma_exp2_neg_one();
    }

    /// Builds `n_trees` trees, each from its own random subsample, drawn
    /// without replacement, of `min(subsample_size, data.len())` points.
    pub fn build(data: &Vec<Vec<i128>>, n_trees: usize, subsample_size: usize, rng: &mut StdRng) -> (forest: IsolationForest)
        requires
            n_trees >= 1,
            subsample_size >= 2,
            data@.len() >= 2,
            full_width(rows(data@)),
        ensures
            forest.wf(),
            forest.trees().len() == n_trees,
            forest.sample_size() == if subsample_size <= data@.len() {
                subsample_size as nat
            } else {
                data@.len()
            },
            forall|i: int|
                0 <= i < n_trees ==> grown_from(#[trigger] forest.trees()[i], rows(data@), forest.sample_size()),
    {
        let size: usize = if subsample_size <= data.len() {
            subsample_size
        } else {
            data.len()
        };
        let limit: usize = depth_limit(size);
        let mut trees: Vec<IsolationTree> = Vec::new();
        let mut i: usize = 0;
        while i < n_trees
            invariant
                i <= n_trees,
                trees@.len() == i,
                2 <= size <= data@.len(),
                limit == spec_depth_limit(size as int),
                limit <= crate::anomaly::tree::MAX_DEPTH,
                full_width(rows(data@)),
                trees_bounded(trees@, size as nat),
                forall|j: int| 0 <= j < i ==> grown_from(#[trigger] trees@[j], rows(data@), size as nat),
            decreases n_trees - i,
        {
            let members: Vec<usize> = subsample(rng, data.len(), size);
            let tree: IsolationTree = build_node(data, &members, 0, limit, rng);
            proof {
                assert(tree.isolates(select(rows(data@), members@), 0, spec_depth_limit(size as int)));
                assert(grown_from(tree, rows(data@), size as nat));
            }
            trees.push(tree);
            i = i + 1;
        }
        IsolationForest { trees, subsample_size: size }
    }

    /// The number of trees.
    pub fn n_trees(&self) -> (n: usize)
        ensures
            n == self.trees().len(),
    {
        self.trees.len()
    }

    /// The `i`-th tree.
    pub fn tree(&self, i: usize) -> (tree: &IsolationTree)
        requires
            i < self.trees().len(),
        ensures
            *tree == self.trees()[i as int],
    {
        &self.trees[i]
    }

    /// The number of points that each tree was built from.
    pub fn subsample_size(&self) -> (size: usize)
        ensures
            size == self.sample_size(),
    {
        self.subsample_size
    }

    /// The anomaly score of a normalized vector, in millionths: near one for a
    /// point isolated unusually quickly, near one half for a point of average
    /// isolation depth.
    pub fn score(&self, point: &[i128]) -> (score: u64)
        requires
            self.wf(),
            point@.len() == NUM_FEATURES,
        ensures
            score == self.spec_score(point@),
            0 < score <= SCALE,
    {
        let normalizer: u64 = average_path_length(self.subsample_size as u64);
        let ghost bound = 19 * spec_average_path(self.sample_size() as int) - 1;
        proof {
            lemma_average_path_bounds(self.sample_size() as int);
            crate::anomaly::fixed::lemma_average_path_magnitude(self.sample_size() as int);
            self.lemma_exponent_bounded(point@);
            self.lemma_score_bounded(point@);
        }
        let mut total: u128 = 0;
        let mut i: usize = 0;
        while i < self.trees.len()
            invariant
                i <= self.trees@.len(),
                self.wf(),
                point@.len() == NUM_FEATURES,
                total == total_path(self.trees@.take(i as int), point@),
                0 <= total <= i * 1_729_000_000,
            decreases self.trees@.len() - i,
        {
            proof {
                assert(self.trees@.take(i + 1).drop_last() =~= self.trees@.take(i as int));
                assert(self.trees@.take(i + 1).last() == self.trees@[i as int]);
                lemma_path_bounded(self.trees@[i as int], self.sample_size(), point@);
                crate::anomaly::fixed::lemma_average_path_magnitude(self.sample_size() as int);
            }
            let length: u64 = self.trees[i].path_length(point);
            total = total + (length as u128);
            i = i + 1;
        }
        proof {
            assert(self.trees@.take(i as int) =~= self.trees@);
        }
        let mean: u64 = (total / (self.trees.len() as u128)) as u64;
        assert(mean * SCALE <= 19 * 91_000_000 * 1_000_000) by (nonlinear_arith)
            requires
                0 <= mean <= 19 * 91_000_000,
                SCALE == 1_000_000,
        ;
        let exponent: u64 = mean * SCALE / normalizer;
        exp2_neg(exponent)
    }
}

} // verus!

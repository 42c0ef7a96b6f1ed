use ml_systems::anomaly::fixed::{average_path_length, exp2_neg, SCALE};
use ml_systems::anomaly::forest::IsolationForest;
use ml_systems::anomaly::tree::{
    depth_limit, feature_range, partition, varying_features, IsolationTree, MAX_DEPTH,
};
use rand::rngs::StdRng;
use rand::SeedableRng;

fn point(a: i128, b: i128) -> Vec<i128> {
    vec![a, b, 500_000, 500_000, 500_000, 500_000]
}

/// A grid of points that differ in the first two features.
fn grid(n: usize) -> Vec<Vec<i128>> {
    (0..n).map(|i| point((i as i128 * 37) % 1_000, (i as i128 * 91) % 777)).collect()
}

fn leaf_sizes(tree: &IsolationTree) -> usize {
    match tree {
        IsolationTree::Leaf { size, .. } => *size,
        IsolationTree::Node { left, right, .. } => leaf_sizes(left) + leaf_sizes(right),
    }
}

fn deepest_leaf(tree: &IsolationTree) -> usize {
    match tree {
        IsolationTree::Leaf { depth, .. } => *depth,
        IsolationTree::Node { left, right, .. } => deepest_leaf(left).max(deepest_leaf(right)),
    }
}

/// Checks the tree against the points it was built from, as construction
/// promises: leaves record size and depth and stand only where they may, and
/// every split leaves a point on either side.
fn check_tree(tree: &IsolationTree, points: &[Vec<i128>], depth: usize, limit: usize) {
    match tree {
        IsolationTree::Leaf { size, depth: recorded } => {
            assert_eq!(*size, points.len());
            assert_eq!(*recorded, depth);
            let constant = points.windows(2).all(|pair| pair[0] == pair[1]);
            assert!(points.len() <= 1 || depth >= limit || constant);
        }
        IsolationTree::Node { feature, threshold, left, right } => {
            assert!(points.len() > 1);
            assert!(depth < limit);
            assert!(*feature < 6);
            let low: Vec<Vec<i128>> =
                points.iter().filter(|p| p[*feature] < *threshold).cloned().collect();
            let high: Vec<Vec<i128>> =
                points.iter().filter(|p| p[*feature] >= *threshold).cloned().collect();
            assert!(!low.is_empty());
            assert!(!high.is_empty());
            check_tree(left, &low, depth + 1, limit);
            check_tree(right, &high, depth + 1, limit);
        }
    }
}

#[test]
fn depth_limit_is_the_ceiling_of_the_binary_logarithm() {
    assert_eq!(depth_limit(0), 1);
    assert_eq!(depth_limit(1), 1);
    assert_eq!(depth_limit(2), 1);
    assert_eq!(depth_limit(3), 2);
    assert_eq!(depth_limit(4), 2);
    assert_eq!(depth_limit(5), 3);
    assert_eq!(depth_limit(50), 6);
    assert_eq!(depth_limit(256), 8);
    assert_eq!(depth_limit(257), 9);
    assert_eq!(depth_limit(usize::MAX), MAX_DEPTH);
}

#[test]
fn path_length_is_depth_plus_correction() {
    let tree = IsolationTree::Node {
        feature: 0,
        threshold: 400_000,
        left: Box::new(IsolationTree::Leaf { size: 1, depth: 1 }),
        right: Box::new(IsolationTree::Node {
            feature: 1,
            threshold: 600_000,
            left: Box::new(IsolationTree::Leaf { size: 3, depth: 2 }),
            right: Box::new(IsolationTree::Leaf { size: 50, depth: 2 }),
        }),
    };
    // below the first threshold: an isolated point at depth 1
    assert_eq!(tree.path_length(&point(399_999, 900_000)), 1_000_000);
    // at the threshold counts as not below
    assert_eq!(tree.path_length(&point(400_000, 599_999)), 2_000_000 + 1_207_393);
    assert_eq!(tree.path_length(&point(400_000, 600_000)), 2_000_000 + 6_978_062);
    // values outside the unit interval are compared like any other
    assert_eq!(tree.path_length(&point(-5_000_000, 0)), 1_000_000);
    assert_eq!(tree.path_length(&point(7_000_000, 9_000_000)), 2_000_000 + average_path_length(50));
}

#[test]
fn tree_of_one_point_is_a_leaf() {
    let mut rng = StdRng::seed_from_u64(1);
    let sample = vec![point(1, 2)];
    match IsolationTree::build(&sample, &mut rng) {
        IsolationTree::Leaf { size, depth } => {
            assert_eq!(size, 1);
            assert_eq!(depth, 0);
        }
        IsolationTree::Node { .. } => panic!("a single point cannot be split"),
    }
    let nothing: Vec<Vec<i128>> = Vec::new();
    match IsolationTree::build(&nothing, &mut rng) {
        IsolationTree::Leaf { size, depth } => {
            assert_eq!(size, 0);
            assert_eq!(depth, 0);
        }
        IsolationTree::Node { .. } => panic!("no point cannot be split"),
    }
}

#[test]
fn tree_of_identical_points_is_a_leaf() {
    let mut rng = StdRng::seed_from_u64(2);
    let sample = vec![point(5, 5); 17];
    match IsolationTree::build(&sample, &mut rng) {
        IsolationTree::Leaf { size, depth } => {
            assert_eq!(size, 17);
            assert_eq!(depth, 0);
        }
        IsolationTree::Node { .. } => panic!("identical points cannot be split"),
    }
}

#[test]
fn built_tree_partitions_its_sample() {
    for seed in 0..20 {
        let mut rng = StdRng::seed_from_u64(seed);
        let sample = grid(40);
        let tree = IsolationTree::build(&sample, &mut rng);
        let limit = depth_limit(sample.len());
        check_tree(&tree, &sample, 0, limit);
        assert_eq!(leaf_sizes(&tree), 40);
        assert!(deepest_leaf(&tree) <= limit);
    }
}

#[test]
fn adjacent_values_are_split_between_them() {
    // two values one millionth apart: the only threshold is the larger value
    let mut rng = StdRng::seed_from_u64(3);
    let sample = vec![point(10, 0), point(11, 0)];
    match IsolationTree::build(&sample, &mut rng) {
        IsolationTree::Node { feature, threshold, left, right } => {
            assert_eq!(feature, 0);
            assert_eq!(threshold, 11);
            assert_eq!(leaf_sizes(&left), 1);
            assert_eq!(leaf_sizes(&right), 1);
        }
        IsolationTree::Leaf { .. } => panic!("two different points must be split"),
    }
}

#[test]
fn split_features_and_thresholds_vary() {
    let sample = grid(64);
    let mut features = Vec::new();
    let mut thresholds = Vec::new();
    let mut rng = StdRng::seed_from_u64(4);
    for _ in 0..40 {
        if let IsolationTree::Node { feature, threshold, .. } = IsolationTree::build(&sample, &mut rng) {
            assert!(feature < 2, "only the first two features differ");
            if feature == 0 {
                assert!(0 < threshold && threshold <= 999);
            } else {
                assert!(0 < threshold && threshold <= 770);
            }
            features.push(feature);
            thresholds.push(threshold);
        } else {
            panic!("different points must be split");
        }
    }
    features.sort();
    features.dedup();
    thresholds.sort();
    thresholds.dedup();
    assert_eq!(features, vec![0, 1]);
    assert!(thresholds.len() > 10);
}

#[test]
fn forest_has_the_trees_and_subsample_size_asked_for() {
    let data = grid(100);
    let mut rng = StdRng::seed_from_u64(5);
    let forest = IsolationForest::build(&data, 25, 16, &mut rng);
    assert_eq!(forest.n_trees(), 25);
    assert_eq!(forest.subsample_size(), 16);
    for i in 0..25 {
        // every tree holds exactly one subsample
        assert_eq!(leaf_sizes(forest.tree(i)), 16);
        assert!(deepest_leaf(forest.tree(i)) <= depth_limit(16));
    }
    let small = IsolationForest::build(&data, 3, 256, &mut rng);
    assert_eq!(small.subsample_size(), 100);
    for i in 0..3 {
        assert_eq!(leaf_sizes(small.tree(i)), 100);
        // a subsample of the whole data without replacement is the data
        check_tree(small.tree(i), &data, 0, depth_limit(100));
    }
}

#[test]
fn subsamples_differ_between_trees() {
    let data = grid(200);
    let mut rng = StdRng::seed_from_u64(6);
    let forest = IsolationForest::build(&data, 10, 8, &mut rng);
    let mut roots = Vec::new();
    for i in 0..10 {
        if let IsolationTree::Node { feature, threshold, .. } = forest.tree(i) {
            roots.push((*feature, *threshold));
        }
    }
    roots.sort();
    roots.dedup();
    assert!(roots.len() > 1);
}

#[test]
fn score_is_the_power_of_the_mean_path_length() {
    let data = vec![point(0, 0), point(1_000_000, 0)];
    let mut rng = StdRng::seed_from_u64(7);
    let forest = IsolationForest::build(&data, 4, 2, &mut rng);
    // every tree splits the two points at depth 1, so each path length is 1
    let mean: u64 = 1_000_000;
    let expected = exp2_neg(mean * SCALE / average_path_length(2));
    assert_eq!(forest.score(&point(0, 0)), expected);
    assert_eq!(forest.score(&point(1_000_000, 0)), expected);
    assert_eq!(expected, 11_238);
}

#[test]
fn score_lies_in_the_unit_interval() {
    for (seed, size) in [(8u64, 2usize), (9, 3), (10, 7), (11, 64), (12, 256)] {
        let data = grid(300);
        let mut rng = StdRng::seed_from_u64(seed);
        let forest = IsolationForest::build(&data, 20, size, &mut rng);
        for query in grid(50).iter().chain([point(-9_000_000, 9_000_000), point(i128::MAX, i128::MIN)].iter()) {
            let score = forest.score(query);
            assert!(0 < score && score <= SCALE, "score {score}");
        }
    }
}

#[test]
fn outliers_score_higher_than_the_bulk() {
    let mut data = vec![point(500_000, 500_000); 60];
    for i in 0..20 {
        data.push(point(480_000 + 2_000 * i, 520_000 - 2_000 * i));
    }
    let mut rng = StdRng::seed_from_u64(13);
    let forest = IsolationForest::build(&data, 100, 64, &mut rng);
    let bulk = forest.score(&point(500_000, 500_000));
    let outlier = forest.score(&point(5_000_000, -3_000_000));
    assert!(outlier > bulk);
    assert!(outlier > 600_000);
    assert!(bulk < 500_000);
}

#[test]
fn same_seed_gives_the_same_forest() {
    let data = grid(120);
    let mut first = StdRng::seed_from_u64(14);
    let mut second = StdRng::seed_from_u64(14);
    let a = IsolationForest::build(&data, 10, 32, &mut first);
    let b = IsolationForest::build(&data, 10, 32, &mut second);
    for query in grid(30) {
        assert_eq!(a.score(&query), b.score(&query));
    }
}

#[test]
fn partition_splits_members_at_the_threshold_in_order() {
    let data = vec![point(5, 0), point(1, 0), point(9, 0), point(5, 1), point(3, 0)];
    let members = vec![4, 0, 2, 1, 3];
    assert_eq!(partition(&data, &members, 0, 5), (vec![4, 1], vec![0, 2, 3]));
    assert_eq!(partition(&data, &members, 0, 1), (vec![], vec![4, 0, 2, 1, 3]));
    assert_eq!(partition(&data, &members, 0, 10), (vec![4, 0, 2, 1, 3], vec![]));
    assert_eq!(partition(&data, &members, 1, 1), (vec![4, 0, 2, 1], vec![3]));
    assert_eq!(partition(&data, &vec![2, 2], 0, 9), (vec![], vec![2, 2]));
    assert_eq!(partition(&data, &Vec::new(), 0, 5), (vec![], vec![]));
}

#[test]
fn feature_range_and_varying_features_of_members() {
    let data = vec![point(5, 7), point(1, 7), point(9, 7), point(5, 8)];
    assert_eq!(feature_range(&data, &vec![0, 1, 2], 0), (1, 9));
    assert_eq!(feature_range(&data, &vec![0, 3], 0), (5, 5));
    assert_eq!(feature_range(&data, &vec![2], 1), (7, 7));
    assert_eq!(varying_features(&data, &vec![0, 1, 2, 3]), vec![(0, 1, 9), (1, 7, 8)]);
    assert_eq!(varying_features(&data, &vec![0, 1, 2]), vec![(0, 1, 9)]);
    assert_eq!(varying_features(&data, &vec![0, 3]), vec![(1, 7, 8)]);
    assert_eq!(varying_features(&data, &vec![1]), vec![]);
}

//! Partitioner training: option mapping, validation, leaf balance,
//! point coverage, spilling, and the trained-state handle.

use scann::proto;
use scann::trees::train;
use scann::trees::BalancingType;
use scann::trees::CenterInitializationType;
use scann::trees::KMeansTree;
use scann::trees::KMeansTreePartitioner;
use scann::trees::ReassignmentType;
use scann::DenseDataset;
use scann::DistanceMeasure;
use scann::ErrorKind;
use scann::KMeansTreeTrainingOptions;

fn two_blob_dataset(n_per_blob: usize) -> DenseDataset<i64> {
    let mut ds: DenseDataset<i64> = DenseDataset::with_dimensionality(2);
    for i in 0..n_per_blob {
        ds.append(&[i as i64 % 7, 100], "").unwrap();
        ds.append(&[100 + (i as i64 % 5), -100], "").unwrap();
    }
    ds
}

fn base_options() -> KMeansTreeTrainingOptions {
    let mut o = KMeansTreeTrainingOptions::new();
    o.max_leaf_size = 5;
    o.max_iterations = 10;
    o.seed = 7;
    o
}

fn leaf_point_lists(tree: &KMeansTree) -> Vec<Vec<usize>> {
    tree.nodes
        .iter()
        .filter(|n| n.children.is_empty())
        .map(|n| n.point_ids.clone())
        .collect()
}

fn occurrence_counts(tree: &KMeansTree, n: usize) -> Vec<usize> {
    let mut counts = vec![0usize; n];
    for node in &tree.nodes {
        for &p in &node.point_ids {
            counts[p] += 1;
        }
    }
    counts
}

#[test]
fn from_config_carries_every_field() {
    let config = proto::PartitioningConfig {
        partitioning_type: proto::PartitioningType::GenericHierarchical,
        max_num_levels: 5,
        max_leaf_size: 100,
        database_spilling: proto::DatabaseSpilling {
            spilling_type: proto::SpillingType::FixedNumberOfCenters,
            replication_factor: 3 * scann::distance::SCALE / 2,
            max_spill_centers: 1000,
        },
        max_clustering_iterations: 50,
        clustering_convergence_tolerance: 10,
        min_cluster_size: 10,
        clustering_seed: 42,
        balancing_type: proto::BalancingType::GreedyBalanced,
        trainer_type: proto::TrainerType::PcaKmeansTrainer,
        single_machine_center_initialization: proto::CenterInitializationType::RandomInitialization,
    };
    let options = KMeansTreeTrainingOptions::from_config(&config).unwrap();
    assert_eq!(options.partitioning_type, proto::PartitioningType::GenericHierarchical);
    assert_eq!(options.max_num_levels, 5);
    assert_eq!(options.max_leaf_size, 100);
    assert_eq!(options.learned_spilling_type, proto::SpillingType::FixedNumberOfCenters);
    assert_eq!(options.per_node_spilling_factor, 3 * scann::distance::SCALE / 2);
    assert_eq!(options.max_spill_centers, 1000);
    assert_eq!(options.max_iterations, 50);
    assert_eq!(options.convergence_epsilon, 10);
    assert_eq!(options.min_cluster_size, 10);
    assert_eq!(options.seed, 42);
    assert_eq!(options.balancing_type, BalancingType::GreedyBalanced);
    assert_eq!(options.reassignment_type, ReassignmentType::PcaSplitting);
    assert_eq!(
        options.center_initialization_type,
        CenterInitializationType::RandomInitialization
    );
}

#[test]
fn validate_rejects_inverted_bounds() {
    let mut o = base_options();
    o.min_cluster_size = 10;
    o.max_leaf_size = 5;
    assert_eq!(o.validate().unwrap_err().kind(), ErrorKind::InvalidArgument);
    o.max_leaf_size = 0;
    o.min_cluster_size = 0;
    assert_eq!(o.validate().unwrap_err().kind(), ErrorKind::InvalidArgument);
}

#[test]
fn training_on_empty_dataset_fails() {
    let ds: DenseDataset<i64> = DenseDataset::with_dimensionality(2);
    let err = train(&ds, &DistanceMeasure::SquaredL2Distance, &base_options()).unwrap_err();
    assert_eq!(err.kind(), ErrorKind::InvalidArgument);
}

#[test]
fn every_point_lands_in_exactly_one_leaf() {
    let ds = two_blob_dataset(10);
    let tree = train(&ds, &DistanceMeasure::SquaredL2Distance, &base_options()).unwrap();
    let counts = occurrence_counts(&tree, ds.size());
    assert!(counts.iter().all(|&c| c == 1));
}

#[test]
fn greedy_balancing_bounds_every_leaf() {
    let ds = two_blob_dataset(10);
    let mut o = base_options();
    o.balancing_type = BalancingType::GreedyBalanced;
    o.min_cluster_size = 3;
    o.max_leaf_size = 5;
    let tree = train(&ds, &DistanceMeasure::SquaredL2Distance, &o).unwrap();
    for leaf in leaf_point_lists(&tree) {
        assert!(3 <= leaf.len() && leaf.len() <= 5, "leaf size {}", leaf.len());
    }
    let counts = occurrence_counts(&tree, ds.size());
    assert!(counts.iter().all(|&c| c == 1));
}

#[test]
fn kmeans_plus_plus_initialization_trains() {
    let ds = two_blob_dataset(8);
    let mut o = base_options();
    o.center_initialization_type = CenterInitializationType::KmeansPlusPlus;
    let tree = train(&ds, &DistanceMeasure::SquaredL2Distance, &o).unwrap();
    let counts = occurrence_counts(&tree, ds.size());
    assert!(counts.iter().all(|&c| c == 1));
}

#[test]
fn spilling_duplicates_points_within_the_cap() {
    let ds = two_blob_dataset(10);
    let mut o = base_options();
    o.learned_spilling_type = proto::SpillingType::FixedNumberOfCenters;
    o.max_spill_centers = 2;
    o.per_node_spilling_factor = 100 * scann::distance::SCALE;
    let tree = train(&ds, &DistanceMeasure::SquaredL2Distance, &o).unwrap();
    let counts = occurrence_counts(&tree, ds.size());
    assert!(counts.iter().all(|&c| 1 <= c && c <= 3));
    // such a generous factor spills at least one point somewhere
    assert!(counts.iter().any(|&c| c > 1));
}

#[test]
fn deep_trees_split_oversized_leaves() {
    let ds = two_blob_dataset(16);
    let mut o = base_options();
    o.max_leaf_size = 4;
    o.max_num_levels = 3;
    let tree = train(&ds, &DistanceMeasure::SquaredL2Distance, &o).unwrap();
    let counts = occurrence_counts(&tree, ds.size());
    assert!(counts.iter().all(|&c| c == 1));
    // internal nodes carry no points
    for node in &tree.nodes {
        if !node.children.is_empty() {
            assert!(node.point_ids.is_empty());
        }
    }
}

#[test]
fn training_is_reproducible_under_a_fixed_seed() {
    let ds = two_blob_dataset(10);
    let o = base_options();
    let t1 = train(&ds, &DistanceMeasure::SquaredL2Distance, &o).unwrap();
    let t2 = train(&ds, &DistanceMeasure::SquaredL2Distance, &o).unwrap();
    let l1 = leaf_point_lists(&t1);
    let l2 = leaf_point_lists(&t2);
    assert_eq!(l1, l2);
}

#[test]
fn partitioner_handle_swaps_only_on_success() {
    let ds = two_blob_dataset(6);
    let mut handle = KMeansTreePartitioner::new();
    assert!(!handle.is_trained());
    assert_eq!(handle.tree().unwrap_err().kind(), ErrorKind::FailedPrecondition);

    handle.train_and_swap(&ds, &DistanceMeasure::SquaredL2Distance, &base_options()).unwrap();
    assert!(handle.is_trained());
    let size_before = handle.tree().unwrap().nodes.len();

    // a failing retraining leaves the published tree untouched
    let mut bad = base_options();
    bad.max_leaf_size = 0;
    let err = handle
        .train_and_swap(&ds, &DistanceMeasure::SquaredL2Distance, &bad)
        .unwrap_err();
    assert_eq!(err.kind(), ErrorKind::InvalidArgument);
    assert!(handle.is_trained());
    assert_eq!(handle.tree().unwrap().nodes.len(), size_before);
}

#[test]
fn from_config_rejects_inverted_bounds_at_construction() {
    let mut config = proto::PartitioningConfig {
        partitioning_type: proto::PartitioningType::Default,
        max_num_levels: 1,
        max_leaf_size: 5,
        database_spilling: proto::DatabaseSpilling {
            spilling_type: proto::SpillingType::NoSpilling,
            replication_factor: scann::distance::SCALE,
            max_spill_centers: 0,
        },
        max_clustering_iterations: 10,
        clustering_convergence_tolerance: 0,
        min_cluster_size: 9,
        clustering_seed: 1,
        balancing_type: proto::BalancingType::DefaultUnbalanced,
        trainer_type: proto::TrainerType::DefaultSamplingTrainer,
        single_machine_center_initialization: proto::CenterInitializationType::DefaultKmeansPlusPlus,
    };
    let err = KMeansTreeTrainingOptions::from_config(&config).unwrap_err();
    assert_eq!(err.kind(), ErrorKind::InvalidArgument);
    config.min_cluster_size = 5;
    assert!(KMeansTreeTrainingOptions::from_config(&config).is_ok());
    config.max_leaf_size = 0;
    config.min_cluster_size = 0;
    let err = KMeansTreeTrainingOptions::from_config(&config).unwrap_err();
    assert_eq!(err.kind(), ErrorKind::InvalidArgument);
}

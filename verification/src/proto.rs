//! Plain configuration and serialization value objects.
//!
//! These are the declarative surfaces the library consumes: the distance
//! measure selection, the partitioner training configuration, and the
//! flat row-major form a projection basis round-trips through. All are
//! immutable value objects validated by their consumers.

use vstd::prelude::*;

verus! {

/// Selects a distance measure by registry name.
#[derive(Clone, Debug)]
pub struct DistanceMeasureConfig {
    pub distance_measure: String,
}

impl DistanceMeasureConfig {
    /// Wraps a measure name.
    pub fn new(distance_measure: String) -> (r: Self)
        ensures
            r.distance_measure@ == distance_measure@,
    {
        DistanceMeasureConfig { distance_measure }
    }

    /// The configured measure name.
    pub fn distance_measure(&self) -> (r: &str)
        ensures
            r@ == self.distance_measure@,
    {
        self.distance_measure.as_str()
    }
}

/// One row of a serialized projection basis.
#[derive(Clone, Debug)]
pub struct GenericFeatureVector {
    pub feature_values: Vec<i64>,
}

/// The flat, row-major serialized form of a projection basis.
#[derive(Clone, Debug)]
pub struct SerializedProjection {
    pub rotation_vec: Vec<GenericFeatureVector>,
}

impl SerializedProjection {
    /// An empty serialized basis.
    pub fn new() -> (r: Self)
        ensures
            r.rotation_vec@.len() == 0,
    {
        SerializedProjection { rotation_vec: Vec::new() }
    }

    /// The number of serialized rows.
    pub fn rotation_vec_size(&self) -> (n: usize)
        ensures
            n == self.rotation_vec@.len(),
    {
        self.rotation_vec.len()
    }
}

/// How the partitioner splits the space.
#[derive(Clone, Copy, PartialEq, Eq, Structural, Debug)]
pub enum PartitioningType {
    Default,
    Spherical,
    GenericHierarchical,
}

/// Whether points may spill into several leaves.
#[derive(Clone, Copy, PartialEq, Eq, Structural, Debug)]
pub enum SpillingType {
    Default,
    NoSpilling,
    FixedNumberOfCenters,
}

/// Whether training rebalances leaf sizes.
#[derive(Clone, Copy, PartialEq, Eq, Structural, Debug)]
pub enum BalancingType {
    DefaultUnbalanced,
    GreedyBalanced,
    UnbalancedFloat32,
}

/// Which trainer family drives reassignment.
#[derive(Clone, Copy, PartialEq, Eq, Structural, Debug)]
pub enum TrainerType {
    DefaultSamplingTrainer,
    FlumeKmeansTrainer,
    PcaKmeansTrainer,
    SamplingPcaKmeansTrainer,
}

/// How the initial cluster centers are drawn.
#[derive(Clone, Copy, PartialEq, Eq, Structural, Debug)]
pub enum CenterInitializationType {
    DefaultKmeansPlusPlus,
    RandomInitialization,
}

/// The spilling section of a partitioning configuration. The replication
/// factor is a fixed-point value: `SCALE` stands for a factor of one.
#[derive(Clone, Copy, PartialEq, Eq, Structural, Debug)]
pub struct DatabaseSpilling {
    pub spilling_type: SpillingType,
    pub replication_factor: i64,
    pub max_spill_centers: i64,
}

/// The whole declarative partitioner training contract. The convergence
/// tolerance is in squared-distance units; the seed makes training
/// reproducible.
#[derive(Clone, Copy, PartialEq, Eq, Structural, Debug)]
pub struct PartitioningConfig {
    pub partitioning_type: PartitioningType,
    pub max_num_levels: i64,
    pub max_leaf_size: i64,
    pub database_spilling: DatabaseSpilling,
    pub max_clustering_iterations: i64,
    pub clustering_convergence_tolerance: i64,
    pub min_cluster_size: i64,
    pub clustering_seed: u64,
    pub balancing_type: BalancingType,
    pub trainer_type: TrainerType,
    pub single_machine_center_initialization: CenterInitializationType,
}

impl PartitioningConfig {
    /// The partitioning type.
    pub fn partitioning_type(&self) -> (r: PartitioningType)
        ensures
            r == self.partitioning_type,
    {
        self.partitioning_type
    }

    /// The maximum tree depth.
    pub fn max_num_levels(&self) -> (r: i64)
        ensures
            r == self.max_num_levels,
    {
        self.max_num_levels
    }

    /// The largest point count a leaf may hold.
    pub fn max_leaf_size(&self) -> (r: i64)
        ensures
            r == self.max_leaf_size,
    {
        self.max_leaf_size
    }

    /// The spilling section.
    pub fn database_spilling(&self) -> (r: DatabaseSpilling)
        ensures
            r == self.database_spilling,
    {
        self.database_spilling
    }

    /// The clustering iteration cap.
    pub fn max_clustering_iterations(&self) -> (r: i64)
        ensures
            r == self.max_clustering_iterations,
    {
        self.max_clustering_iterations
    }

    /// The convergence tolerance, in squared-distance units.
    pub fn clustering_convergence_tolerance(&self) -> (r: i64)
        ensures
            r == self.clustering_convergence_tolerance,
    {
        self.clustering_convergence_tolerance
    }

    /// The smallest point count a leaf may hold under balancing.
    pub fn min_cluster_size(&self) -> (r: i64)
        ensures
            r == self.min_cluster_size,
    {
        self.min_cluster_size
    }

    /// The training seed.
    pub fn clustering_seed(&self) -> (r: u64)
        ensures
            r == self.clustering_seed,
    {
        self.clustering_seed
    }

    /// The balancing policy.
    pub fn balancing_type(&self) -> (r: BalancingType)
        ensures
            r == self.balancing_type,
    {
        self.balancing_type
    }

    /// The trainer family.
    pub fn trainer_type(&self) -> (r: TrainerType)
        ensures
            r == self.trainer_type,
    {
        self.trainer_type
    }

    /// The center initialization policy.
    pub fn single_machine_center_initialization(&self) -> (r: CenterInitializationType)
        ensures
            r == self.single_machine_center_initialization,
    {
        self.single_machine_center_initialization
    }
}

/// The kinds of trained artifacts an asset manifest can reference.
#[derive(Clone, Copy, PartialEq, Eq, Structural, Debug)]
pub enum AssetType {
    AhCenters,
    Partitioner,
    TokenizationNpy,
    AhDatasetNpy,
    Int8DatasetNpy,
    Int8MultipliersNpy,
    Int8NormsNpy,
    DatasetNpy,
}

/// One manifest entry: where an artifact lives and what it is.
#[derive(Clone, Debug)]
pub struct ScannAsset {
    pub asset_path: String,
    pub asset_type: AssetType,
}

/// The whole asset manifest.
#[derive(Clone, Debug)]
pub struct ScannAssets {
    pub assets: Vec<ScannAsset>,
}

} // verus!

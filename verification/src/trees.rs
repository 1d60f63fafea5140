//! The k-means tree partitioner: training options and training.
//!
//! Training builds a tree of cluster centers over a dataset: seeded
//! center initialization, iterative assign/recompute rounds with a
//! convergence tolerance, optional greedy balancing of leaf sizes,
//! optional spilling of points into nearby extra leaves, and recursive
//! splitting of oversized leaves down to a level cap. The tree is built
//! independently of any previously trained one and returned by value, so
//! a failed training leaves earlier artifacts untouched.

use vstd::prelude::*;

use crate::dataset::DenseDataset;
use crate::distance::MAX_COMPONENT;
use crate::distance::DistanceMeasure;
use crate::error::ErrorKind;
use crate::error::ScannError;
use crate::error::invalid_argument_error;
use crate::proto;

verus! {

/// Whether training rebalances leaf sizes.
#[derive(Clone, Copy, PartialEq, Eq, Structural, Debug)]
pub enum BalancingType {
    Unbalanced,
    GreedyBalanced,
    UnbalancedFloat32,
}

/// How points are reassigned when a cluster degenerates.
#[derive(Clone, Copy, PartialEq, Eq, Structural, Debug)]
pub enum ReassignmentType {
    RandomReassignment,
    PcaSplitting,
}

/// How the initial cluster centers are drawn.
#[derive(Clone, Copy, PartialEq, Eq, Structural, Debug)]
pub enum CenterInitializationType {
    KmeansPlusPlus,
    RandomInitialization,
}

/// The declarative training contract, as plain values. The spilling
/// factor is fixed-point (`SCALE` stands for a factor of one); the
/// convergence epsilon is in squared-distance units.
#[derive(Clone, Copy, PartialEq, Eq, Structural, Debug)]
pub struct KMeansTreeTrainingOptions {
    pub partitioning_type: proto::PartitioningType,
    pub max_num_levels: i64,
    pub max_leaf_size: i64,
    pub learned_spilling_type: proto::SpillingType,
    pub per_node_spilling_factor: i64,
    pub max_spill_centers: i64,
    pub max_iterations: i64,
    pub convergence_epsilon: i64,
    pub min_cluster_size: i64,
    pub seed: u64,
    pub balancing_type: BalancingType,
    pub reassignment_type: ReassignmentType,
    pub center_initialization_type: CenterInitializationType,
}

impl KMeansTreeTrainingOptions {
    /// The neutral defaults; training itself validates the sizes.
    pub fn new() -> (r: Self)
        ensures
            r.partitioning_type == proto::PartitioningType::Default,
            r.max_num_levels == 0 && r.max_leaf_size == 0,
            r.learned_spilling_type == proto::SpillingType::Default,
            r.per_node_spilling_factor == 0 && r.max_spill_centers == 0,
            r.max_iterations == 0 && r.convergence_epsilon == 0,
            r.min_cluster_size == 0 && r.seed == 0,
            r.balancing_type == BalancingType::Unbalanced,
            r.reassignment_type == ReassignmentType::RandomReassignment,
            r.center_initialization_type == CenterInitializationType::KmeansPlusPlus,
    {
        KMeansTreeTrainingOptions {
            partitioning_type: proto::PartitioningType::Default,
            max_num_levels: 0,
            max_leaf_size: 0,
            learned_spilling_type: proto::SpillingType::Default,
            per_node_spilling_factor: 0,
            max_spill_centers: 0,
            max_iterations: 0,
            convergence_epsilon: 0,
            min_cluster_size: 0,
            seed: 0,
            balancing_type: BalancingType::Unbalanced,
            reassignment_type: ReassignmentType::RandomReassignment,
            center_initialization_type: CenterInitializationType::KmeansPlusPlus,
        }
    }

    /// The balancing policy a configuration selects.
    pub open spec fn spec_balancing_of(c: proto::BalancingType) -> BalancingType {
        match c {
            proto::BalancingType::DefaultUnbalanced => BalancingType::Unbalanced,
            proto::BalancingType::GreedyBalanced => BalancingType::GreedyBalanced,
            proto::BalancingType::UnbalancedFloat32 => BalancingType::UnbalancedFloat32,
        }
    }

    /// The reassignment policy a trainer family selects.
    pub open spec fn spec_reassignment_of(c: proto::TrainerType) -> ReassignmentType {
        match c {
            proto::TrainerType::DefaultSamplingTrainer => ReassignmentType::RandomReassignment,
            proto::TrainerType::FlumeKmeansTrainer => ReassignmentType::RandomReassignment,
            proto::TrainerType::PcaKmeansTrainer => ReassignmentType::PcaSplitting,
            proto::TrainerType::SamplingPcaKmeansTrainer => ReassignmentType::PcaSplitting,
        }
    }

    /// The initialization policy a configuration selects.
    pub open spec fn spec_initialization_of(c: proto::CenterInitializationType) -> CenterInitializationType {
        match c {
            proto::CenterInitializationType::DefaultKmeansPlusPlus => CenterInitializationType::KmeansPlusPlus,
            proto::CenterInitializationType::RandomInitialization => CenterInitializationType::RandomInitialization,
        }
    }

    /// The size constraints a configuration must meet to construct
    /// training options.
    pub open spec fn config_sizes_ok(config: proto::PartitioningConfig) -> bool {
        config.max_leaf_size >= 1 && config.min_cluster_size <= config.max_leaf_size
            && config.min_cluster_size >= 0 && config.max_clustering_iterations >= 0
    }

    /// Builds training options from a partitioning configuration,
    /// carrying every field over and translating the policy enums. The
    /// configuration is validated here, at construction: it fails with
    /// `InvalidArgument`, and only then, when the minimum cluster size
    /// exceeds the maximum leaf size, a size is negative, or the maximum
    /// leaf size is not positive.
    pub fn from_config(config: &proto::PartitioningConfig) -> (r: Result<Self, ScannError>)
        ensures
            !Self::config_sizes_ok(*config) ==> (r matches Err(e) && e.kind
                == ErrorKind::InvalidArgument),
            Self::config_sizes_ok(*config) ==> (r matches Ok(o) && {
                &&& o.partitioning_type == config.partitioning_type
                &&& o.max_num_levels == config.max_num_levels
                &&& o.max_leaf_size == config.max_leaf_size
                &&& o.learned_spilling_type == config.database_spilling.spilling_type
                &&& o.per_node_spilling_factor == config.database_spilling.replication_factor
                &&& o.max_spill_centers == config.database_spilling.max_spill_centers
                &&& o.max_iterations == config.max_clustering_iterations
                &&& o.convergence_epsilon == config.clustering_convergence_tolerance
                &&& o.min_cluster_size == config.min_cluster_size
                &&& o.seed == config.clustering_seed
                &&& o.balancing_type == Self::spec_balancing_of(config.balancing_type)
                &&& o.reassignment_type == Self::spec_reassignment_of(config.trainer_type)
                &&& o.center_initialization_type == Self::spec_initialization_of(
                    config.single_machine_center_initialization,
                )
                &&& o.sizes_ok()
            }),
    {
        if config.max_leaf_size() < 1 {
            return Err(invalid_argument_error("max_leaf_size must be at least 1"));
        }
        if config.min_cluster_size() > config.max_leaf_size() {
            return Err(invalid_argument_error("min_cluster_size cannot exceed max_leaf_size"));
        }
        if config.min_cluster_size() < 0 {
            return Err(invalid_argument_error("min_cluster_size cannot be negative"));
        }
        if config.max_clustering_iterations() < 0 {
            return Err(invalid_argument_error("max_clustering_iterations cannot be negative"));
        }
        let balancing_type = match config.balancing_type() {
            proto::BalancingType::DefaultUnbalanced => BalancingType::Unbalanced,
            proto::BalancingType::GreedyBalanced => BalancingType::GreedyBalanced,
            proto::BalancingType::UnbalancedFloat32 => BalancingType::UnbalancedFloat32,
        };
        let reassignment_type = match config.trainer_type() {
            proto::TrainerType::DefaultSamplingTrainer | proto::TrainerType::FlumeKmeansTrainer => {
                ReassignmentType::RandomReassignment
            },
            proto::TrainerType::PcaKmeansTrainer | proto::TrainerType::SamplingPcaKmeansTrainer => {
                ReassignmentType::PcaSplitting
            },
        };
        let center_initialization_type = match config.single_machine_center_initialization() {
            proto::CenterInitializationType::DefaultKmeansPlusPlus => {
                CenterInitializationType::KmeansPlusPlus
            },
            proto::CenterInitializationType::RandomInitialization => {
                CenterInitializationType::RandomInitialization
            },
        };
        let spilling = config.database_spilling();
        Ok(
            KMeansTreeTrainingOptions {
                partitioning_type: config.partitioning_type(),
                max_num_levels: config.max_num_levels(),
                max_leaf_size: config.max_leaf_size(),
                learned_spilling_type: spilling.spilling_type,
                per_node_spilling_factor: spilling.replication_factor,
                max_spill_centers: spilling.max_spill_centers,
                max_iterations: config.max_clustering_iterations(),
                convergence_epsilon: config.clustering_convergence_tolerance(),
                min_cluster_size: config.min_cluster_size(),
                seed: config.clustering_seed(),
                balancing_type,
                reassignment_type,
                center_initialization_type,
            },
        )
    }

    /// The size constraints training itself demands.
    pub open spec fn sizes_ok(&self) -> bool {
        self.max_leaf_size >= 1 && self.min_cluster_size <= self.max_leaf_size
            && self.min_cluster_size >= 0 && self.max_iterations >= 0
    }

    /// Checks the size constraints. Fails with `InvalidArgument`, and
    /// only then, when the minimum cluster size exceeds the maximum leaf
    /// size, a size is negative, or the maximum leaf size is not positive.
    pub fn validate(&self) -> (r: Result<(), ScannError>)
        ensures
            self.sizes_ok() ==> r is Ok,
            !self.sizes_ok() ==> (r matches Err(e) && e.kind == ErrorKind::InvalidArgument),
    {
        if self.max_leaf_size < 1 {
            return Err(invalid_argument_error("max_leaf_size must be at least 1"));
        }
        if self.min_cluster_size > self.max_leaf_size {
            return Err(invalid_argument_error("min_cluster_size cannot exceed max_leaf_size"));
        }
        if self.min_cluster_size < 0 {
            return Err(invalid_argument_error("min_cluster_size cannot be negative"));
        }
        if self.max_iterations < 0 {
            return Err(invalid_argument_error("max_clustering_iterations cannot be negative"));
        }
        Ok(())
    }
}

/// How often `x` occurs in an id list.
pub open spec fn count_in(s: Seq<usize>, x: usize) -> int
    decreases s.len(),
{
    if s.len() == 0 {
        0
    } else {
        count_in(s.drop_last(), x) + if s.last() == x {
            1int
        } else {
            0int
        }
    }
}

/// Occurrence counts are non-negative and bounded by the length.
pub proof fn lemma_count_in_bounds(s: Seq<usize>, x: usize)
    ensures
        0 <= count_in(s, x) <= s.len(),
    decreases s.len(),
{
    if s.len() > 0 {
        lemma_count_in_bounds(s.drop_last(), x);
    }
}

/// Appending one id raises exactly its own count by one.
pub proof fn lemma_count_in_push(s: Seq<usize>, y: usize, x: usize)
    ensures
        count_in(s.push(y), x) == count_in(s, x) + if y == x {
            1int
        } else {
            0int
        },
{
    assert(s.push(y).drop_last() =~= s);
}

/// How often `x` occurs across a family of id lists.
pub open spec fn total_count(lists: Seq<Vec<usize>>, x: usize) -> int
    decreases lists.len(),
{
    if lists.len() == 0 {
        0
    } else {
        total_count(lists.drop_last(), x) + count_in(lists.last()@, x)
    }
}

/// The combined length of a family of id lists.
pub open spec fn sum_lens(lists: Seq<Vec<usize>>) -> int
    decreases lists.len(),
{
    if lists.len() == 0 {
        0
    } else {
        sum_lens(lists.drop_last()) + lists.last()@.len()
    }
}

/// Appending one list extends both family sums by that list.
pub proof fn lemma_family_push(lists: Seq<Vec<usize>>, l: Vec<usize>, x: usize)
    ensures
        total_count(lists.push(l), x) == total_count(lists, x) + count_in(l@, x),
        sum_lens(lists.push(l)) == sum_lens(lists) + l@.len(),
{
    assert(lists.push(l).drop_last() =~= lists);
}

/// How often positions up to the end carry cluster `j` and id `x`.
pub open spec fn count_assigned(ids: Seq<usize>, assign: Seq<usize>, j: usize, x: usize) -> int
    decreases ids.len(),
{
    if ids.len() == 0 || assign.len() == 0 {
        0
    } else {
        count_assigned(ids.drop_last(), assign.drop_last(), j, x) + if assign.last() == j
            && ids.last() == x {
            1int
        } else {
            0int
        }
    }
}

/// How many positions carry cluster `j`.
pub open spec fn count_eq(assign: Seq<usize>, j: usize) -> int
    decreases assign.len(),
{
    if assign.len() == 0 {
        0
    } else {
        count_eq(assign.drop_last(), j) + if assign.last() == j {
            1int
        } else {
            0int
        }
    }
}

/// `count_assigned` summed over the first `c` clusters.
pub open spec fn sum_assigned(ids: Seq<usize>, assign: Seq<usize>, c: int, x: usize) -> int
    decreases c,
{
    if c <= 0 {
        0
    } else {
        sum_assigned(ids, assign, c - 1, x) + count_assigned(ids, assign, (c - 1) as usize, x)
    }
}

/// `count_eq` summed over the first `c` clusters.
pub open spec fn sum_eq(assign: Seq<usize>, c: int) -> int
    decreases c,
{
    if c <= 0 {
        0
    } else {
        sum_eq(assign, c - 1) + count_eq(assign, (c - 1) as usize)
    }
}

/// Both cluster sums over empty position lists are zero.
proof fn lemma_sums_empty(ids: Seq<usize>, assign: Seq<usize>, c: int, x: usize)
    requires
        ids.len() == 0 || assign.len() == 0,
        assign.len() == ids.len(),
    ensures
        sum_assigned(ids, assign, c, x) == 0,
        sum_eq(assign, c) == 0,
    decreases c,
{
    if c > 0 {
        lemma_sums_empty(ids, assign, c - 1, x);
    }
}

/// Extending the position lists by one pair raises the cluster sums by
/// that pair's contribution, provided its cluster is below `c`.
proof fn lemma_sums_step(ids: Seq<usize>, assign: Seq<usize>, c: int, x: usize)
    requires
        ids.len() == assign.len(),
        ids.len() > 0,
        0 <= assign.last() < c,
        c <= usize::MAX,
    ensures
        sum_assigned(ids, assign, c, x) == sum_assigned(ids.drop_last(), assign.drop_last(), c, x)
            + if ids.last() == x {
            1int
        } else {
            0int
        },
        sum_eq(assign, c) == sum_eq(assign.drop_last(), c) + 1,
    decreases c,
{
    if c > 0 {
        if assign.last() as int == c - 1 {
            lemma_sums_same_below(ids, assign, c - 1, x);
        } else {
            lemma_sums_step(ids, assign, c - 1, x);
        }
    }
}

/// Dropping the last pair leaves cluster sums over clusters below `c`
/// unchanged when that pair's cluster is not below `c`.
proof fn lemma_sums_same_below(ids: Seq<usize>, assign: Seq<usize>, c: int, x: usize)
    requires
        ids.len() == assign.len(),
        ids.len() > 0,
        !(assign.last() < c),
        c <= usize::MAX,
    ensures
        sum_assigned(ids, assign, c, x) == sum_assigned(
            ids.drop_last(),
            assign.drop_last(),
            c,
            x,
        ),
        sum_eq(assign, c) == sum_eq(assign.drop_last(), c),
    decreases c,
{
    if c > 0 {
        lemma_sums_same_below(ids, assign, c - 1, x);
    }
}

/// When every position's cluster is below `c`, the cluster sums cover
/// everything: ids by their plain counts, positions by their number.
pub proof fn lemma_sums_cover(ids: Seq<usize>, assign: Seq<usize>, c: int, x: usize)
    requires
        ids.len() == assign.len(),
        forall|i: int| 0 <= i < assign.len() ==> 0 <= #[trigger] assign[i] < c,
        c <= usize::MAX,
    ensures
        sum_assigned(ids, assign, c, x) == count_in(ids, x),
        sum_eq(assign, c) == assign.len(),
    decreases ids.len(),
{
    if ids.len() == 0 {
        lemma_sums_empty(ids, assign, c, x);
    } else {
        let ids1 = ids.drop_last();
        let as1 = assign.drop_last();
        assert(forall|i: int| 0 <= i < as1.len() ==> 0 <= #[trigger] as1[i] < c) by {
            assert(forall|i: int| 0 <= i < as1.len() ==> as1[i] == assign[i]);
        }
        lemma_sums_cover(ids1, as1, c, x);
        lemma_sums_step(ids, assign, c, x);
    }
}

/// Groups the ids by their assigned cluster: list `j` holds, in order,
/// the ids whose position is assigned to cluster `j`. Together the lists
/// hold exactly the given ids.
pub fn split_by_assignment(ids: &Vec<usize>, assign: &Vec<usize>, c: usize) -> (lists: Vec<
    Vec<usize>,
>)
    requires
        assign@.len() == ids@.len(),
        forall|i: int| 0 <= i < assign@.len() ==> #[trigger] assign@[i] < c,
    ensures
        lists@.len() == c,
        forall|x: usize| #[trigger] total_count(lists@, x) == count_in(ids@, x),
        sum_lens(lists@) == ids@.len(),
        forall|j: int| 0 <= j < c ==> (#[trigger] lists@[j])@.len() == count_eq(assign@, j as usize),
{
    let n = ids.len();
    let mut lists: Vec<Vec<usize>> = Vec::new();
    let mut j: usize = 0;
    while j < c
        invariant
            j <= c,
            n == ids@.len() && n == assign@.len(),
            forall|i: int| 0 <= i < assign@.len() ==> #[trigger] assign@[i] < c,
            lists@.len() == j,
            forall|x: usize| #[trigger] total_count(lists@, x) == sum_assigned(
                ids@,
                assign@,
                j as int,
                x,
            ),
            sum_lens(lists@) == sum_eq(assign@, j as int),
            forall|v: int|
                0 <= v < j ==> (#[trigger] lists@[v])@.len() == count_eq(assign@, v as usize),
        decreases c - j,
    {
        let mut list: Vec<usize> = Vec::new();
        let mut i: usize = 0;
        while i < n
            invariant
                i <= n,
                n == ids@.len() && n == assign@.len(),
                j < c,
                forall|x: usize| #[trigger] count_in(list@, x) == count_assigned(
                    ids@.subrange(0, i as int),
                    assign@.subrange(0, i as int),
                    j,
                    x,
                ),
                list@.len() == count_eq(assign@.subrange(0, i as int), j),
            decreases n - i,
        {
            proof {
                let ip = ids@.subrange(0, i + 1);
                let ap = assign@.subrange(0, i + 1);
                assert(ip.drop_last() =~= ids@.subrange(0, i as int));
                assert(ap.drop_last() =~= assign@.subrange(0, i as int));
                if assign@[i as int] == j {
                    assert forall|x: usize| #[trigger] count_in(list@.push(ids@[i as int]), x)
                        == count_assigned(ip, ap, j, x) by {
                        lemma_count_in_push(list@, ids@[i as int], x);
                    }
                }
            }
            if assign[i] == j {
                list.push(ids[i]);
            }
            i += 1;
        }
        proof {
            assert(ids@.subrange(0, n as int) =~= ids@);
            assert(assign@.subrange(0, n as int) =~= assign@);
            assert forall|x: usize| #[trigger] total_count(lists@.push(list), x) == sum_assigned(
                ids@,
                assign@,
                j + 1,
                x,
            ) by {
                lemma_family_push(lists@, list, x);
            }
            lemma_family_push(lists@, list, 0);
        }
        lists.push(list);
        j += 1;
    }
    proof {
        assert forall|x: usize| #[trigger] total_count(lists@, x) == count_in(ids@, x) by {
            lemma_sums_cover(ids@, assign@, c as int, x);
        }
        lemma_sums_cover(ids@, assign@, c as int, 0);
    }
    lists
}

/// Signed division rounded toward zero.
pub open spec fn trunc_div(a: int, b: int) -> int {
    if a >= 0 {
        a / b
    } else {
        -((-a) / b)
    }
}

/// The sum of coordinate `c` over the rows named by `ids`.
pub open spec fn coord_sum(ds: Seq<Seq<i64>>, ids: Seq<usize>, c: int) -> int
    decreases ids.len(),
{
    if ids.len() == 0 {
        0
    } else {
        coord_sum(ds, ids.drop_last(), c) + ds[ids.last() as int][c]
    }
}

/// The data every clustering step works on: a well-formed store of
/// tightly bounded rows.
pub open spec fn trainable(ds: DenseDataset<i64>) -> bool {
    &&& ds.is_well_formed()
    &&& ds.dimensionality <= crate::distance::MAX_DIM
    &&& forall|i: int| 0 <= i < ds@.len() ==> crate::distance::narrow_vector(#[trigger] ds@[i])
}

/// A usable cluster center: input-length and tightly bounded.
pub open spec fn center_ok(center: Seq<i64>, dim: int) -> bool {
    center.len() == dim && crate::distance::narrow_vector(center)
}

/// The centroid of the rows named by `ids`: every coordinate is the
/// members' sum divided by their number, rounded toward zero.
fn compute_center(ds: &DenseDataset<i64>, ids: &Vec<usize>) -> (center: Vec<i64>)
    requires
        trainable(*ds),
        ids@.len() > 0,
        forall|i: int| 0 <= i < ids@.len() ==> (#[trigger] ids@[i]) < ds@.len(),
    ensures
        center_ok(center@, ds.dimensionality as int),
        forall|c: int|
            0 <= c < center@.len() ==> #[trigger] center@[c] == trunc_div(
                coord_sum(ds@, ids@, c),
                ids@.len() as int,
            ),
{
    let dim = ds.dimensionality();
    let count = ids.len();
    let mut sums: Vec<i128> = Vec::new();
    let mut c: usize = 0;
    while c < dim
        invariant
            c <= dim,
            sums@.len() == c,
            forall|v: int| 0 <= v < c ==> #[trigger] sums@[v] == 0,
        decreases dim - c,
    {
        sums.push(0);
        c += 1;
    }
    let mut i: usize = 0;
    while i < count
        invariant
            i <= count,
            count == ids@.len(),
            trainable(*ds),
            dim == ds.dimensionality,
            forall|v: int| 0 <= v < ids@.len() ==> (#[trigger] ids@[v]) < ds@.len(),
            sums@.len() == dim,
            forall|v: int|
                0 <= v < dim ==> #[trigger] sums@[v] == coord_sum(
                    ds@,
                    ids@.subrange(0, i as int),
                    v,
                ),
            forall|v: int|
                0 <= v < dim ==> -(i as int) * (MAX_COMPONENT as int) <= #[trigger] sums@[v] <= (
                i as int) * (MAX_COMPONENT as int),
        decreases count - i,
    {
        let row = ds.row(ids[i]);
        let mut c2: usize = 0;
        while c2 < dim
            invariant
                c2 <= dim,
                i < count,
                count == ids@.len(),
                trainable(*ds),
                dim == ds.dimensionality,
                forall|v: int| 0 <= v < ids@.len() ==> (#[trigger] ids@[v]) < ds@.len(),
                row@ == ds@[ids@[i as int] as int],
                row@.len() == dim,
                sums@.len() == dim,
                forall|v: int|
                    c2 <= v < dim ==> #[trigger] sums@[v] == coord_sum(
                        ds@,
                        ids@.subrange(0, i as int),
                        v,
                    ),
                forall|v: int|
                    0 <= v < c2 ==> #[trigger] sums@[v] == coord_sum(
                        ds@,
                        ids@.subrange(0, i + 1),
                        v,
                    ),
                forall|v: int|
                    c2 <= v < dim ==> -(i as int) * (MAX_COMPONENT as int) <= #[trigger] sums@[v]
                        <= (i as int) * (MAX_COMPONENT as int),
                forall|v: int|
                    0 <= v < c2 ==> -(i as int + 1) * (MAX_COMPONENT as int) <= #[trigger] sums@[v]
                        <= (i as int + 1) * (MAX_COMPONENT as int),
            decreases dim - c2,
        {
            proof {
                let pre = ids@.subrange(0, i as int);
                let pre1 = ids@.subrange(0, i + 1);
                assert(pre1.drop_last() =~= pre);
                assert(pre1.last() == ids@[i as int]);
                assert((i as int + 1) * (MAX_COMPONENT as int) == (i as int) * (
                MAX_COMPONENT as int) + (MAX_COMPONENT as int)) by (nonlinear_arith);
                assert(-(MAX_COMPONENT as int) <= ds@[ids@[i as int] as int][c2 as int] <= (
                MAX_COMPONENT as int));
            }
            let updated: i128 = sums[c2] + (row[c2] as i128);
            sums.set(c2, updated);
            c2 += 1;
        }
        i += 1;
    }
    proof {
        assert(ids@.subrange(0, count as int) =~= ids@);
    }
    let mut center: Vec<i64> = Vec::new();
    let mut c3: usize = 0;
    while c3 < dim
        invariant
            c3 <= dim,
            count == ids@.len() && count > 0,
            sums@.len() == dim,
            forall|v: int| 0 <= v < dim ==> #[trigger] sums@[v] == coord_sum(ds@, ids@, v),
            forall|v: int|
                0 <= v < dim ==> -(count as int) * (MAX_COMPONENT as int) <= #[trigger] sums@[v]
                    <= (count as int) * (MAX_COMPONENT as int),
            center@.len() == c3,
            forall|v: int|
                0 <= v < c3 ==> #[trigger] center@[v] == trunc_div(
                    coord_sum(ds@, ids@, v),
                    count as int,
                ),
            forall|v: int|
                0 <= v < c3 ==> -(MAX_COMPONENT as int) <= #[trigger] center@[v] <= (
                MAX_COMPONENT as int),
        decreases dim - c3,
    {
        let s = sums[c3];
        let mag: u128 = if s >= 0 {
            s as u128
        } else {
            (-s) as u128
        };
        let q: u128 = mag / (count as u128);
        proof {
            vstd::arithmetic::div_mod::lemma_div_pos_is_pos(mag as int, count as int);
            vstd::arithmetic::div_mod::lemma_div_is_ordered(
                mag as int,
                (count as int) * (MAX_COMPONENT as int),
                count as int,
            );
            vstd::arithmetic::div_mod::lemma_div_multiples_vanish(
                MAX_COMPONENT as int,
                count as int,
            );
        }
        let val: i64 = if s >= 0 {
            q as i64
        } else {
            -(q as i64)
        };
        center.push(val);
        c3 += 1;
    }
    center
}

/// The index of the nearest center: smallest distance, ties to the
/// lowest index.
fn nearest_center(
    measure: &DistanceMeasure,
    point: &[i64],
    centers: &Vec<Vec<i64>>,
) -> (best: usize)
    requires
        centers@.len() > 0,
        crate::distance::narrow_vector(point@),
        forall|j: int|
            0 <= j < centers@.len() ==> center_ok((#[trigger] centers@[j])@, point@.len() as int),
    ensures
        best < centers@.len(),
        forall|j: int|
            0 <= j < centers@.len() ==> {
                let db = crate::distance::spec_distance(*measure, point@, centers@[best as int]@);
                let dj = crate::distance::spec_distance(*measure, point@, (#[trigger] centers@[j])@);
                db < dj || (db == dj && best <= j)
            },
{
    proof {
        crate::distance::lemma_narrow_implies_wide(point@);
        crate::distance::lemma_narrow_implies_wide(centers@[0]@);
    }
    let mut best: usize = 0;
    let mut bestd: i128 = crate::distance::distance_on_slices(
        measure,
        point,
        centers[0].as_slice(),
    );
    let mut j: usize = 1;
    while j < centers.len()
        invariant
            1 <= j <= centers@.len(),
            best < j,
            crate::distance::narrow_vector(point@),
            forall|v: int|
                0 <= v < centers@.len() ==> center_ok(
                    (#[trigger] centers@[v])@,
                    point@.len() as int,
                ),
            bestd == crate::distance::spec_distance(*measure, point@, centers@[best as int]@),
            forall|v: int|
                0 <= v < j ==> {
                    let dv = crate::distance::spec_distance(
                        *measure,
                        point@,
                        (#[trigger] centers@[v])@,
                    );
                    bestd < dv || (bestd == dv && best <= v)
                },
        decreases centers@.len() - j,
    {
        proof {
            crate::distance::lemma_narrow_implies_wide(point@);
            crate::distance::lemma_narrow_implies_wide(centers@[j as int]@);
        }
        let d = crate::distance::distance_on_slices(measure, point, centers[j].as_slice());
        if d < bestd {
            best = j;
            bestd = d;
        }
        j += 1;
    }
    best
}

/// Assigns every named point to its nearest center.
fn assign_all(
    measure: &DistanceMeasure,
    ds: &DenseDataset<i64>,
    ids: &Vec<usize>,
    centers: &Vec<Vec<i64>>,
) -> (assign: Vec<usize>)
    requires
        trainable(*ds),
        centers@.len() > 0,
        forall|i: int| 0 <= i < ids@.len() ==> (#[trigger] ids@[i]) < ds@.len(),
        forall|j: int|
            0 <= j < centers@.len() ==> center_ok(
                (#[trigger] centers@[j])@,
                ds.dimensionality as int,
            ),
    ensures
        assign@.len() == ids@.len(),
        forall|i: int| 0 <= i < assign@.len() ==> (#[trigger] assign@[i]) < centers@.len(),
        forall|i: int, j: int|
            0 <= i < ids@.len() && 0 <= j < centers@.len() ==> {
                let p = ds@[ids@[i] as int];
                let da = crate::distance::spec_distance(
                    *measure,
                    p,
                    centers@[(#[trigger] assign@[i]) as int]@,
                );
                let dj = crate::distance::spec_distance(*measure, p, (#[trigger] centers@[j])@);
                da < dj || (da == dj && assign@[i] <= j)
            },
{
    let n = ids.len();
    let mut assign: Vec<usize> = Vec::new();
    let mut i: usize = 0;
    while i < n
        invariant
            i <= n,
            n == ids@.len(),
            trainable(*ds),
            centers@.len() > 0,
            forall|v: int| 0 <= v < ids@.len() ==> (#[trigger] ids@[v]) < ds@.len(),
            forall|j: int|
                0 <= j < centers@.len() ==> center_ok(
                    (#[trigger] centers@[j])@,
                    ds.dimensionality as int,
                ),
            assign@.len() == i,
            forall|v: int| 0 <= v < i ==> (#[trigger] assign@[v]) < centers@.len(),
            forall|v: int, j: int|
                0 <= v < i && 0 <= j < centers@.len() ==> {
                    let p = ds@[ids@[v] as int];
                    let da = crate::distance::spec_distance(
                        *measure,
                        p,
                        centers@[(#[trigger] assign@[v]) as int]@,
                    );
                    let dj = crate::distance::spec_distance(*measure, p, (#[trigger] centers@[j])@);
                    da < dj || (da == dj && assign@[v] <= j)
                },
        decreases n - i,
    {
        let row = ds.row(ids[i]);
        let a = nearest_center(measure, row.as_slice(), centers);
        assign.push(a);
        i += 1;
    }
    assign
}

/// An exact copy of a component row.
fn copy_row(v: &[i64]) -> (r: Vec<i64>)
    ensures
        r@ == v@,
{
    let mut r: Vec<i64> = Vec::new();
    let n = v.len();
    let mut i: usize = 0;
    while i < n
        invariant
            i <= n,
            n == v@.len(),
            r@ == v@.subrange(0, i as int),
        decreases n - i,
    {
        r.push(v[i]);
        proof {
            assert(r@ =~= v@.subrange(0, i + 1));
        }
        i += 1;
    }
    proof {
        assert(r@ =~= v@);
    }
    r
}

/// A family sum is at least any one member's count.
pub proof fn lemma_family_member(lists: Seq<Vec<usize>>, j: int, x: usize)
    requires
        0 <= j < lists.len(),
    ensures
        total_count(lists, x) >= count_in(lists[j]@, x),
        total_count(lists, x) >= 0,
    decreases lists.len(),
{
    lemma_count_in_bounds(lists.last()@, x);
    if lists.len() > 0 {
        if j == lists.len() - 1 {
            lemma_family_nonneg(lists.drop_last(), x);
        } else {
            lemma_family_member(lists.drop_last(), j, x);
        }
    }
}

/// A family sum is never negative.
pub proof fn lemma_family_nonneg(lists: Seq<Vec<usize>>, x: usize)
    ensures
        total_count(lists, x) >= 0,
    decreases lists.len(),
{
    if lists.len() > 0 {
        lemma_family_nonneg(lists.drop_last(), x);
        lemma_count_in_bounds(lists.last()@, x);
    }
}

/// Every id in a family whose counts come from `ids` is an id of `ids`.
proof fn lemma_family_ids_valid(lists: Seq<Vec<usize>>, ids: Seq<usize>, bound: int)
    requires
        forall|x: usize| #[trigger] total_count(lists, x) == count_in(ids, x),
        forall|i: int| 0 <= i < ids.len() ==> (#[trigger] ids[i]) < bound,
    ensures
        forall|j: int, p: int|
            0 <= j < lists.len() && 0 <= p < lists[j]@.len() ==> #[trigger] lists[j]@[p] < bound,
{
    assert forall|j: int, p: int|
        0 <= j < lists.len() && 0 <= p < lists[j]@.len() implies #[trigger] lists[j]@[p]
        < bound by {
        let x = lists[j]@[p];
        lemma_count_in_contains(lists[j]@, x);
        assert(lists[j]@.contains(x));
        lemma_family_member(lists, j, x);
        assert(count_in(ids, x) > 0);
        lemma_count_in_contains(ids, x);
        let w = choose|w: int| 0 <= w < ids.len() && ids[w] == x;
    }
}

/// Draws `c` seeded initial centers from the named rows, by uniform
/// sampling or by distance-weighted (k-means++ style) sampling.
fn init_centers(
    measure: &DistanceMeasure,
    ds: &DenseDataset<i64>,
    ids: &Vec<usize>,
    c: usize,
    seed: u64,
    init: CenterInitializationType,
) -> (centers: Vec<Vec<i64>>)
    requires
        trainable(*ds),
        ids@.len() > 0,
        c >= 1,
        forall|i: int| 0 <= i < ids@.len() ==> (#[trigger] ids@[i]) < ds@.len(),
    ensures
        centers@.len() == c,
        forall|j: int|
            0 <= j < centers@.len() ==> center_ok(
                (#[trigger] centers@[j])@,
                ds.dimensionality as int,
            ),
{
    let n = ids.len();
    let mut state: u64 = seed;
    let mut centers: Vec<Vec<i64>> = Vec::new();
    state = crate::projection::lcg_next(state);
    let first = ids[((state >> 8) % (n as u64)) as usize];
    centers.push(copy_row(ds.row(first).as_slice()));
    let mut t: usize = 1;
    while t < c
        invariant
            1 <= t <= c,
            n == ids@.len() && n > 0,
            trainable(*ds),
            forall|i: int| 0 <= i < ids@.len() ==> (#[trigger] ids@[i]) < ds@.len(),
            centers@.len() == t,
            forall|j: int|
                0 <= j < centers@.len() ==> center_ok(
                    (#[trigger] centers@[j])@,
                    ds.dimensionality as int,
                ),
        decreases c - t,
    {
        state = crate::projection::lcg_next(state);
        let pick: usize = match init {
            CenterInitializationType::RandomInitialization => {
                ((state >> 8) % (n as u64)) as usize
            },
            CenterInitializationType::KmeansPlusPlus => {
                // weight each point by its squared distance to the
                // nearest already-chosen center, then sample by weight
                let mut weights: Vec<i128> = Vec::new();
                let mut total: u128 = 0;
                let mut i: usize = 0;
                while i < n
                    invariant
                        i <= n,
                        n == ids@.len(),
                        trainable(*ds),
                        forall|v: int| 0 <= v < ids@.len() ==> (#[trigger] ids@[v]) < ds@.len(),
                        centers@.len() == t,
                        t >= 1,
                        forall|j: int|
                            0 <= j < centers@.len() ==> center_ok(
                                (#[trigger] centers@[j])@,
                                ds.dimensionality as int,
                            ),
                        weights@.len() == i,
                        forall|v: int|
                            0 <= v < i ==> 0 <= #[trigger] weights@[v] <= 4503599627370496int,
                        total <= (i as int) * 4503599627370496int,
                    decreases n - i,
                {
                    let row = ds.row(ids[i]);
                    proof {
                        crate::distance::lemma_dot_bounds_narrow(row@, centers@[0]@);
                        crate::distance::lemma_narrow_implies_wide(row@);
                        crate::distance::lemma_narrow_implies_wide(centers@[0]@);
                    }
                    let mut w: i128 = crate::distance::sum_squared_diffs(
                        row.as_slice(),
                        centers[0].as_slice(),
                    );
                    proof {
                        crate::distance::lemma_squared_l2_nonneg(row@, centers@[0]@);
                    }
                    let mut j: usize = 1;
                    while j < t
                        invariant
                            1 <= j <= t,
                            t == centers@.len(),
                            i < n,
                            n == ids@.len(),
                            trainable(*ds),
                            forall|v: int| 0 <= v < ids@.len() ==> (#[trigger] ids@[v]) < ds@.len(),
                            row@ == ds@[ids@[i as int] as int],
                            forall|v: int|
                                0 <= v < centers@.len() ==> center_ok(
                                    (#[trigger] centers@[v])@,
                                    ds.dimensionality as int,
                                ),
                            0 <= w <= 4503599627370496int,
                        decreases t - j,
                    {
                        proof {
                            crate::distance::lemma_dot_bounds_narrow(row@, centers@[j as int]@);
                            crate::distance::lemma_narrow_implies_wide(row@);
                            crate::distance::lemma_narrow_implies_wide(centers@[j as int]@);
                            crate::distance::lemma_squared_l2_nonneg(row@, centers@[j as int]@);
                        }
                        let d = crate::distance::sum_squared_diffs(
                            row.as_slice(),
                            centers[j].as_slice(),
                        );
                        if d < w {
                            w = d;
                        }
                        j += 1;
                    }
                    proof {
                        assert((i as int + 1) * 4503599627370496int == (i as int)
                            * 4503599627370496int + 4503599627370496int) by (nonlinear_arith);
                    }
                    weights.push(w);
                    total = total + (w as u128);
                    i += 1;
                }
                if total == 0 {
                    ((state >> 8) % (n as u64)) as usize
                } else {
                    let hi = crate::projection::lcg_next(state);
                    let lo = crate::projection::lcg_next(hi);
                    let r: u128 = (((hi as u128) << 64) | (lo as u128)) % total;
                    let mut cum: u128 = 0;
                    let mut pick: usize = 0;
                    let mut found = false;
                    let mut i2: usize = 0;
                    while i2 < n && !found
                        invariant
                            i2 <= n,
                            n == weights@.len(),
                            forall|v: int|
                                0 <= v < n ==> 0 <= #[trigger] weights@[v] <= 4503599627370496int,
                            cum <= (i2 as int) * 4503599627370496int,
                            found ==> pick < n,
                            !found ==> pick == 0,
                        decreases n - i2, (if found { 0int } else { 1int }),
                    {
                        proof {
                            assert((i2 as int + 1) * 4503599627370496int == (i2 as int)
                                * 4503599627370496int + 4503599627370496int) by (nonlinear_arith);
                        }
                        cum = cum + (weights[i2] as u128);
                        if cum > r {
                            pick = i2;
                            found = true;
                        }
                        i2 += 1;
                    }
                    pick
                }
            },
        };
        centers.push(copy_row(ds.row(ids[pick]).as_slice()));
        t += 1;
    }
    centers
}

/// One round of clustering the named rows into `c` groups: seeded
/// initialization, then up to `max_iterations` assign/recompute rounds
/// stopping early when the largest center movement (squared L2) is
/// within the convergence epsilon, then a final assignment. Every point
/// ends assigned to its nearest returned center.
fn cluster_subset(
    measure: &DistanceMeasure,
    ds: &DenseDataset<i64>,
    ids: &Vec<usize>,
    c: usize,
    options: &KMeansTreeTrainingOptions,
) -> (r: (Vec<Vec<i64>>, Vec<usize>))
    requires
        trainable(*ds),
        ids@.len() > 0,
        c >= 1,
        options.max_iterations >= 0,
        forall|i: int| 0 <= i < ids@.len() ==> (#[trigger] ids@[i]) < ds@.len(),
    ensures
        r.0@.len() == c,
        forall|j: int|
            0 <= j < r.0@.len() ==> center_ok((#[trigger] r.0@[j])@, ds.dimensionality as int),
        r.1@.len() == ids@.len(),
        forall|i: int| 0 <= i < r.1@.len() ==> (#[trigger] r.1@[i]) < c,
        forall|i: int, j: int|
            0 <= i < ids@.len() && 0 <= j < c ==> {
                let p = ds@[ids@[i] as int];
                let da = crate::distance::spec_distance(
                    *measure,
                    p,
                    r.0@[(#[trigger] r.1@[i]) as int]@,
                );
                let dj = crate::distance::spec_distance(*measure, p, (#[trigger] r.0@[j])@);
                da < dj || (da == dj && r.1@[i] <= j)
            },
{
    let mut centers = init_centers(
        measure,
        ds,
        ids,
        c,
        options.seed,
        options.center_initialization_type,
    );
    let eps: i128 = options.convergence_epsilon as i128;
    let mut it: i64 = 0;
    let max_it: i64 = options.max_iterations;
    while it < max_it
        invariant
            0 <= it <= max_it || max_it <= 0,
            trainable(*ds),
            ids@.len() > 0,
            c >= 1,
            forall|i: int| 0 <= i < ids@.len() ==> (#[trigger] ids@[i]) < ds@.len(),
            centers@.len() == c,
            forall|j: int|
                0 <= j < centers@.len() ==> center_ok(
                    (#[trigger] centers@[j])@,
                    ds.dimensionality as int,
                ),
        decreases max_it - it,
    {
        let assign = assign_all(measure, ds, ids, &centers);
        let lists = split_by_assignment(ids, &assign, c);
        proof {
            lemma_family_ids_valid(lists@, ids@, ds@.len() as int);
        }
        let mut new_centers: Vec<Vec<i64>> = Vec::new();
        let mut j: usize = 0;
        while j < c
            invariant
                j <= c,
                trainable(*ds),
                lists@.len() == c,
                centers@.len() == c,
                forall|v: int|
                    0 <= v < centers@.len() ==> center_ok(
                        (#[trigger] centers@[v])@,
                        ds.dimensionality as int,
                    ),
                forall|v: int, p: int|
                    0 <= v < lists@.len() && 0 <= p < lists@[v]@.len() ==> #[trigger] lists@[v]@[p]
                        < ds@.len(),
                new_centers@.len() == j,
                forall|v: int|
                    0 <= v < new_centers@.len() ==> center_ok(
                        (#[trigger] new_centers@[v])@,
                        ds.dimensionality as int,
                    ),
            decreases c - j,
        {
            if lists[j].len() > 0 {
                new_centers.push(compute_center(ds, &lists[j]));
            } else {
                new_centers.push(copy_row(centers[j].as_slice()));
            }
            j += 1;
        }
        // the largest squared center movement decides convergence
        let mut movement: i128 = 0;
        let mut j2: usize = 0;
        while j2 < c
            invariant
                j2 <= c,
                trainable(*ds),
                centers@.len() == c,
                new_centers@.len() == c,
                forall|v: int|
                    0 <= v < centers@.len() ==> center_ok(
                        (#[trigger] centers@[v])@,
                        ds.dimensionality as int,
                    ),
                forall|v: int|
                    0 <= v < new_centers@.len() ==> center_ok(
                        (#[trigger] new_centers@[v])@,
                        ds.dimensionality as int,
                    ),
                movement >= 0,
            decreases c - j2,
        {
            proof {
                crate::distance::lemma_dot_bounds_narrow(centers@[j2 as int]@, new_centers@[j2 as int]@);
                crate::distance::lemma_narrow_implies_wide(centers@[j2 as int]@);
                crate::distance::lemma_narrow_implies_wide(new_centers@[j2 as int]@);
                crate::distance::lemma_squared_l2_nonneg(
                    centers@[j2 as int]@,
                    new_centers@[j2 as int]@,
                );
            }
            let d = crate::distance::sum_squared_diffs(
                centers[j2].as_slice(),
                new_centers[j2].as_slice(),
            );
            if d > movement {
                movement = d;
            }
            j2 += 1;
        }
        centers = new_centers;
        if movement <= eps {
            break ;
        }
        it += 1;
    }
    let assign = assign_all(measure, ds, ids, &centers);
    (centers, assign)
}

/// An exact copy of an id list.
fn copy_ids(v: &[usize]) -> (r: Vec<usize>)
    ensures
        r@ == v@,
{
    let mut r: Vec<usize> = Vec::new();
    let n = v.len();
    let mut i: usize = 0;
    while i < n
        invariant
            i <= n,
            n == v@.len(),
            r@ == v@.subrange(0, i as int),
        decreases n - i,
    {
        r.push(v[i]);
        proof {
            assert(r@ =~= v@.subrange(0, i + 1));
        }
        i += 1;
    }
    proof {
        assert(r@ =~= v@);
    }
    r
}

/// The sum of a sequence of sizes.
pub open spec fn sum_vals(s: Seq<usize>) -> int
    decreases s.len(),
{
    if s.len() == 0 {
        0
    } else {
        sum_vals(s.drop_last()) + s.last()
    }
}

/// Size sums split over concatenation.
proof fn lemma_sum_vals_concat(a: Seq<usize>, b: Seq<usize>)
    ensures
        sum_vals(a + b) == sum_vals(a) + sum_vals(b),
    decreases b.len(),
{
    if b.len() == 0 {
        assert(a + b =~= a);
    } else {
        assert((a + b).drop_last() =~= a + b.drop_last());
        assert((a + b).last() == b.last());
        lemma_sum_vals_concat(a, b.drop_last());
    }
}

/// A family whose lists are elementwise no longer than the sizes sums to
/// no more; elementwise equal lengths sum equal.
proof fn lemma_sum_lens_vs_vals(lists: Seq<Vec<usize>>, t: Seq<usize>)
    requires
        lists.len() == t.len(),
        forall|v: int| 0 <= v < lists.len() ==> (#[trigger] lists[v])@.len() <= t[v],
    ensures
        sum_lens(lists) <= sum_vals(t),
        (forall|v: int| 0 <= v < lists.len() ==> (#[trigger] lists[v])@.len() == t[v])
            ==> sum_lens(lists) == sum_vals(t),
    decreases lists.len(),
{
    if lists.len() > 0 {
        let l1 = lists.drop_last();
        let t1 = t.drop_last();
        assert(forall|v: int| 0 <= v < l1.len() ==> l1[v] == lists[v] && t1[v] == t[v]);
        lemma_sum_lens_vs_vals(l1, t1);
    }
}

/// Removing the first list drops its contribution from both family sums.
proof fn lemma_family_remove0(lists: Seq<Vec<usize>>, x: usize)
    requires
        lists.len() > 0,
    ensures
        total_count(lists.remove(0), x) == total_count(lists, x) - count_in(lists[0]@, x),
        sum_lens(lists.remove(0)) == sum_lens(lists) - lists[0]@.len(),
    decreases lists.len(),
{
    if lists.len() == 1 {
        assert(lists.remove(0) =~= Seq::<Vec<usize>>::empty());
        assert(lists.drop_last().len() == 0);
    } else {
        let r = lists.remove(0);
        assert(r.drop_last() =~= lists.drop_last().remove(0));
        assert(r.last() == lists.last());
        lemma_family_remove0(lists.drop_last(), x);
    }
}

/// Per-leaf target sizes: each within `[minsz, maxsz]`, together exactly
/// `n`.
fn build_targets(c: usize, minsz: usize, maxsz: usize, n: usize) -> (t: Vec<usize>)
    requires
        c >= 1,
        minsz <= maxsz,
        (c as int) * (minsz as int) <= n as int <= (c as int) * (maxsz as int),
    ensures
        t@.len() == c,
        forall|j: int| 0 <= j < c ==> minsz <= #[trigger] t@[j] <= maxsz,
        sum_vals(t@) == n,
{
    let spread = maxsz - minsz;
    let mut rem: usize = n - c * minsz;
    proof {
        assert((c as int) * (minsz as int) <= n as int);
        assert(n as int - (c as int) * (minsz as int) <= (c as int) * (spread as int))
            by (nonlinear_arith)
            requires
                n as int <= (c as int) * (maxsz as int),
                spread as int == maxsz as int - minsz as int,
        ;
        assert((c as int) * (minsz as int) <= usize::MAX as int);
    }
    let mut t: Vec<usize> = Vec::new();
    let mut j: usize = 0;
    while j < c
        invariant
            j <= c,
            minsz <= maxsz,
            spread == maxsz - minsz,
            t@.len() == j,
            forall|v: int| 0 <= v < j ==> minsz <= #[trigger] t@[v] <= maxsz,
            sum_vals(t@) == (j as int) * (minsz as int) + ((n as int - (c as int) * (
            minsz as int)) - rem as int),
            rem as int <= ((c - j) as int) * (spread as int),
            (c as int) * (minsz as int) <= n as int,
        decreases c - j,
    {
        let add: usize = if rem < spread {
            rem
        } else {
            spread
        };
        rem = rem - add;
        proof {
            assert(t@.push((minsz + add) as usize).drop_last() =~= t@);
            assert((j as int + 1) * (minsz as int) == (j as int) * (minsz as int) + (minsz as int))
                by (nonlinear_arith);
            assert(((c - j) as int) * (spread as int) == ((c - j - 1) as int) * (spread as int) + (
            spread as int)) by (nonlinear_arith)
                requires
                    j < c,
            ;
        }
        t.push(minsz + add);
        j += 1;
    }
    proof {
        assert(((c - j) as int) * (spread as int) == 0) by (nonlinear_arith)
            requires
                c == j,
        ;
        assert(rem as int <= 0);
    }
    t
}

/// Moves points between the lists until list `j` holds exactly
/// `targets[j]` ids, keeping the ids themselves: first over-full lists
/// shed their last ids into a pool, then under-full lists draw from it.
fn rebalance(lists: Vec<Vec<usize>>, targets: &Vec<usize>) -> (out: Vec<Vec<usize>>)
    requires
        lists@.len() == targets@.len(),
        sum_lens(lists@) == sum_vals(targets@),
    ensures
        out@.len() == lists@.len(),
        forall|j: int| 0 <= j < out@.len() ==> (#[trigger] out@[j])@.len() == targets@[j],
        forall|x: usize| #[trigger] total_count(out@, x) == total_count(lists@, x),
{
    let c = targets.len();
    let ghost orig = lists@;
    let mut rem = lists;
    let mut pool: Vec<usize> = Vec::new();
    let mut trimmed: Vec<Vec<usize>> = Vec::new();
    let mut j: usize = 0;
    // shed everything over target into the pool
    while j < c
        invariant
            j <= c,
            c == targets@.len(),
            rem@.len() == c - j,
            trimmed@.len() == j,
            forall|v: int| 0 <= v < rem@.len() ==> rem@[v] == orig[j + v],
            forall|v: int| 0 <= v < j ==> (#[trigger] trimmed@[v])@.len() <= targets@[v],
            forall|x: usize| #[trigger] total_count(trimmed@, x) + count_in(pool@, x)
                + total_count(rem@, x) == total_count(orig, x),
            sum_lens(trimmed@) + pool@.len() + sum_lens(rem@) == sum_lens(orig),
        decreases c - j,
    {
        proof {
            lemma_family_remove0(rem@, 0);
            assert forall|x: usize| #[trigger] total_count(rem@.remove(0), x) == total_count(
                rem@,
                x,
            ) - count_in(rem@[0]@, x) by {
                lemma_family_remove0(rem@, x);
            }
        }
        let mut cur = rem.remove(0);
        let tj = targets[j];
        while cur.len() > tj
            invariant
                c == targets@.len(),
                j < c,
                tj == targets@[j as int],
                forall|x: usize| #[trigger] count_in(cur@, x) + count_in(pool@, x) + total_count(
                    trimmed@,
                    x,
                ) + total_count(rem@, x) == total_count(orig, x),
                cur@.len() + pool@.len() + sum_lens(trimmed@) + sum_lens(rem@) == sum_lens(orig),
            decreases cur@.len(),
        {
            let ghost curpre = cur@;
            let ghost poolpre = pool@;
            let x = match cur.pop() {
                Some(x) => x,
                None => {
                    return trimmed;  // unreachable: the list is nonempty
                },
            };
            pool.push(x);
            proof {
                assert forall|y: usize| #[trigger] count_in(cur@, y) + count_in(pool@, y)
                    + total_count(trimmed@, y) + total_count(rem@, y) == total_count(orig, y) by {
                    lemma_count_in_push(poolpre, x, y);
                    assert(curpre.drop_last() == cur@);
                    assert(count_in(curpre, y) == count_in(cur@, y) + if x == y {
                        1int
                    } else {
                        0int
                    });
                }
            }
        }
        proof {
            assert forall|x: usize| #[trigger] total_count(trimmed@.push(cur), x) + count_in(
                pool@,
                x,
            ) + total_count(rem@, x) == total_count(orig, x) by {
                lemma_family_push(trimmed@, cur, x);
            }
            lemma_family_push(trimmed@, cur, 0);
        }
        trimmed.push(cur);
        j += 1;
    }
    // draw from the pool until every list meets its target
    let ghost after_trim = trimmed@;
    let mut rem2 = trimmed;
    let mut out: Vec<Vec<usize>> = Vec::new();
    let mut j2: usize = 0;
    while j2 < c
        invariant
            j2 <= c,
            c == targets@.len(),
            rem2@.len() == c - j2,
            out@.len() == j2,
            after_trim.len() == c,
            forall|v: int| 0 <= v < rem2@.len() ==> rem2@[v] == after_trim[j2 + v],
            forall|v: int| 0 <= v < after_trim.len() ==> (#[trigger] after_trim[v])@.len()
                <= targets@[v],
            forall|v: int| 0 <= v < j2 ==> (#[trigger] out@[v])@.len() == targets@[v],
            forall|x: usize| #[trigger] total_count(out@, x) + count_in(pool@, x) + total_count(
                rem2@,
                x,
            ) == total_count(orig, x),
            sum_lens(out@) + pool@.len() + sum_lens(rem2@) == sum_lens(orig),
            sum_lens(orig) == sum_vals(targets@),
        decreases c - j2,
    {
        proof {
            assert forall|x: usize| #[trigger] total_count(rem2@.remove(0), x) == total_count(
                rem2@,
                x,
            ) - count_in(rem2@[0]@, x) by {
                lemma_family_remove0(rem2@, x);
            }
            lemma_family_remove0(rem2@, 0);
        }
        let mut cur = rem2.remove(0);
        let tj = targets[j2];
        while cur.len() < tj
            invariant
                c == targets@.len(),
                j2 < c,
                tj == targets@[j2 as int],
                rem2@.len() == c - j2 - 1,
                cur@.len() <= tj,
                after_trim.len() == c,
                forall|v: int| 0 <= v < rem2@.len() ==> rem2@[v] == after_trim[j2 + 1 + v],
                forall|v: int| 0 <= v < after_trim.len() ==> (#[trigger] after_trim[v])@.len()
                    <= targets@[v],
                forall|v: int| 0 <= v < j2 ==> (#[trigger] out@[v])@.len() == targets@[v],
                out@.len() == j2,
                forall|x: usize| #[trigger] total_count(out@, x) + count_in(cur@, x) + count_in(
                    pool@,
                    x,
                ) + total_count(rem2@, x) == total_count(orig, x),
                sum_lens(out@) + cur@.len() + pool@.len() + sum_lens(rem2@) == sum_lens(orig),
                sum_lens(orig) == sum_vals(targets@),
            decreases tj - cur@.len(),
        {
            proof {
                // the pool cannot be empty: all of the deficit up to the
                // targets is in the pool
                let tpre = targets@.subrange(0, j2 as int);
                let tmid = targets@.subrange(j2 as int, j2 + 1);
                let tpost = targets@.subrange(j2 + 1, c as int);
                assert(targets@ =~= tpre + (tmid + tpost));
                lemma_sum_vals_concat(tpre, tmid + tpost);
                lemma_sum_vals_concat(tmid, tpost);
                assert(sum_vals(tmid) == targets@[j2 as int]) by {
                    assert(tmid.drop_last() =~= Seq::<usize>::empty());
                    assert(sum_vals(tmid.drop_last()) == 0);
                    assert(tmid.last() == targets@[j2 as int]);
                }
                let outt = out@;
                assert(forall|v: int|
                    0 <= v < outt.len() ==> (#[trigger] outt[v])@.len() == tpre[v]);
                lemma_sum_lens_vs_vals(outt, tpre);
                assert(forall|v: int|
                    0 <= v < rem2@.len() ==> (#[trigger] rem2@[v])@.len() <= tpost[v]);
                lemma_sum_lens_vs_vals(rem2@, tpost);
                assert(pool@.len() > 0);
            }
            let ghost poolpre = pool@;
            let ghost curpre = cur@;
            let x = match pool.pop() {
                Some(x) => x,
                None => {
                    return out;  // unreachable: the pool is nonempty
                },
            };
            cur.push(x);
            proof {
                assert forall|y: usize| #[trigger] total_count(out@, y) + count_in(cur@, y)
                    + count_in(pool@, y) + total_count(rem2@, y) == total_count(orig, y) by {
                    lemma_count_in_push(curpre, x, y);
                    assert(poolpre.drop_last() == pool@);
                    assert(count_in(poolpre, y) == count_in(pool@, y) + if x == y {
                        1int
                    } else {
                        0int
                    });
                }
            }
        }
        proof {
            assert forall|x: usize| #[trigger] total_count(out@.push(cur), x) + count_in(pool@, x)
                + total_count(rem2@, x) == total_count(orig, x) by {
                lemma_family_push(out@, cur, x);
            }
            lemma_family_push(out@, cur, 0);
        }
        out.push(cur);
        j2 += 1;
    }
    proof {
        // with every target met, the pool has emptied
        let outt = out@;
        assert(forall|v: int| 0 <= v < outt.len() ==> (#[trigger] outt[v])@.len() == targets@[v]);
        lemma_sum_lens_vs_vals(outt, targets@);
        assert(pool@.len() == 0);
        assert forall|x: usize| #[trigger] total_count(out@, x) == total_count(orig, x) by {
            assert(count_in(pool@, x) == 0);
        }
    }
    out
}

/// One node of the partitioner tree: an internal node has child indices
/// and no points; a leaf has a point-id list and no children.
#[derive(Debug)]
pub struct KMeansTreeNode {
    pub center: Vec<i64>,
    pub children: Vec<usize>,
    pub point_ids: Vec<usize>,
}

/// The trained partitioner: an arena of nodes, node 0 the root.
#[derive(Debug)]
pub struct KMeansTree {
    pub nodes: Vec<KMeansTreeNode>,
    pub n_points: usize,
}

/// How often point `x` is held across all leaves of the arena.
pub open spec fn occurrences(nodes: Seq<KMeansTreeNode>, x: usize) -> int
    decreases nodes.len(),
{
    if nodes.len() == 0 {
        0
    } else {
        occurrences(nodes.drop_last(), x) + count_in(nodes.last().point_ids@, x)
    }
}

/// Appending a node extends the occurrence count by its points.
pub proof fn lemma_occ_push(nodes: Seq<KMeansTreeNode>, node: KMeansTreeNode, x: usize)
    ensures
        occurrences(nodes.push(node), x) == occurrences(nodes, x) + count_in(node.point_ids@, x),
{
    assert(nodes.push(node).drop_last() =~= nodes);
}

/// Replacing a node shifts the occurrence count by the difference.
pub proof fn lemma_occ_update(nodes: Seq<KMeansTreeNode>, j: int, node: KMeansTreeNode, x: usize)
    requires
        0 <= j < nodes.len(),
    ensures
        occurrences(nodes.update(j, node), x) == occurrences(nodes, x) - count_in(
            nodes[j].point_ids@,
            x,
        ) + count_in(node.point_ids@, x),
    decreases nodes.len(),
{
    let u = nodes.update(j, node);
    if j == nodes.len() - 1 {
        assert(u.drop_last() =~= nodes.drop_last());
        assert(u.last() == node);
    } else {
        assert(u.drop_last() =~= nodes.drop_last().update(j, node));
        assert(u.last() == nodes.last());
        lemma_occ_update(nodes.drop_last(), j, node, x);
    }
}

/// The structural invariant of a trained tree: children point strictly
/// forward in the arena, internal nodes hold no points, and every stored
/// point id is a dataset index.
pub open spec fn tree_wf(t: KMeansTree) -> bool {
    &&& t.nodes@.len() >= 1
    &&& forall|i: int, k: int|
        0 <= i < t.nodes@.len() && 0 <= k < t.nodes@[i].children@.len() ==> i < #[trigger] t.nodes@[i].children@[k] < t.nodes@.len()
    &&& forall|i: int|
        0 <= i < t.nodes@.len() && (#[trigger] t.nodes@[i]).children@.len() > 0
            ==> t.nodes@[i].point_ids@.len() == 0
    &&& forall|i: int, p: int|
        0 <= i < t.nodes@.len() && 0 <= p < t.nodes@[i].point_ids@.len()
            ==> #[trigger] t.nodes@[i].point_ids@[p] < t.n_points
}

/// Every non-root node carries a usable center of the dataset's
/// dimensionality; descent compares children's centers, never the root's.
pub open spec fn tree_centers_ok(nodes: Seq<KMeansTreeNode>, dim: int) -> bool {
    forall|i: int| 1 <= i < nodes.len() ==> center_ok((#[trigger] nodes[i]).center@, dim)
}

/// Every leaf's point count lies within the bounds.
pub open spec fn balanced_leaves(nodes: Seq<KMeansTreeNode>, minsz: int, maxsz: int) -> bool {
    forall|i: int|
        0 <= i < nodes.len() && (#[trigger] nodes[i]).children@.len() == 0 ==> minsz
            <= nodes[i].point_ids@.len() <= maxsz
}

/// Whether these options turn spilling on.
pub open spec fn spill_active(o: KMeansTreeTrainingOptions) -> bool {
    o.learned_spilling_type == proto::SpillingType::FixedNumberOfCenters && o.max_spill_centers > 0
}

/// Division rounded upward.
pub open spec fn ceil_div(n: int, m: int) -> int {
    n / m + if n % m == 0 {
        0int
    } else {
        1int
    }
}

/// A dataset of `n` points can be balanced into leaves of
/// `[minsz, maxsz]` points when the natural leaf count still covers the
/// minimum.
pub open spec fn balance_feasible(n: int, minsz: int, maxsz: int) -> bool {
    ceil_div(n, maxsz) * minsz <= n
}

/// The rounded-up quotient covers `n` and stays within it.
proof fn lemma_ceil_div_bounds(n: int, m: int)
    requires
        n >= 1,
        m >= 1,
    ensures
        1 <= ceil_div(n, m) <= n,
        n <= ceil_div(n, m) * m,
{
    vstd::arithmetic::div_mod::lemma_fundamental_div_mod(n, m);
    let q = n / m;
    let r = n % m;
    vstd::arithmetic::div_mod::lemma_div_pos_is_pos(n, m);
    vstd::arithmetic::div_mod::lemma_div_nonincreasing(n, m);
    assert(q * m == m * q) by (nonlinear_arith);
    if r == 0 {
        assert(q >= 1) by (nonlinear_arith)
            requires
                n == m * q + 0,
                n >= 1,
                m >= 1,
                q >= 0,
        ;
    } else {
        assert((q + 1) * m >= m * q + r) by (nonlinear_arith)
            requires
                m >= 1,
                r < m,
                q >= 0,
        ;
        assert(q + 1 <= n) by (nonlinear_arith)
            requires
                n == m * q + r,
                m >= 1,
                r >= 1,
                q >= 0,
        ;
    }
}

/// The count of each identity position is one.
proof fn lemma_count_identity(ids: Seq<usize>, x: usize)
    requires
        forall|v: int| 0 <= v < ids.len() ==> #[trigger] ids[v] == v,
    ensures
        count_in(ids, x) == if (x as int) < ids.len() {
            1int
        } else {
            0int
        },
    decreases ids.len(),
{
    if ids.len() > 0 {
        let i1 = ids.drop_last();
        assert(forall|v: int| 0 <= v < i1.len() ==> #[trigger] i1[v] == ids[v]);
        lemma_count_identity(i1, x);
    }
}

/// Adds each point to up to `max_spill` extra leaves whose centers are
/// nearly as close (by squared L2) as its own: an extra leaf `j` takes
/// the point when `SCALE` times its squared distance is within `factor`
/// times the squared distance to the assigned center.
fn apply_spilling(
    ds: &DenseDataset<i64>,
    lists: Vec<Vec<usize>>,
    centers: &Vec<Vec<i64>>,
    assign: &Vec<usize>,
    factor: i64,
    max_spill: usize,
) -> (out: Vec<Vec<usize>>)
    requires
        trainable(*ds),
        lists@.len() == centers@.len(),
        lists@.len() >= 1,
        assign@.len() == ds@.len(),
        forall|i: int| 0 <= i < assign@.len() ==> (#[trigger] assign@[i]) < centers@.len(),
        forall|j: int|
            0 <= j < centers@.len() ==> center_ok(
                (#[trigger] centers@[j])@,
                ds.dimensionality as int,
            ),
        forall|x: usize| #[trigger] total_count(lists@, x) == (if (x as int) < ds@.len() {
            1int
        } else {
            0int
        }),
    ensures
        out@.len() == lists@.len(),
        forall|x: usize|
            (x as int) < ds@.len() ==> 1 <= #[trigger] total_count(out@, x) <= 1 + max_spill,
        forall|x: usize| (x as int) >= ds@.len() ==> #[trigger] total_count(out@, x) == 0,
{
    let c = centers.len();
    let n = ds.size();
    let ghost orig = lists@;
    let mut extras: Vec<usize> = Vec::new();
    let mut i0: usize = 0;
    while i0 < n
        invariant
            i0 <= n,
            extras@.len() == i0,
            forall|v: int| 0 <= v < i0 ==> #[trigger] extras@[v] == 0,
        decreases n - i0,
    {
        extras.push(0);
        i0 += 1;
    }
    let mut rem = lists;
    let mut out: Vec<Vec<usize>> = Vec::new();
    let mut j: usize = 0;
    while j < c
        invariant
            j <= c,
            c == centers@.len(),
            n == ds@.len(),
            trainable(*ds),
            assign@.len() == n,
            forall|i: int| 0 <= i < assign@.len() ==> (#[trigger] assign@[i]) < c,
            forall|v: int|
                0 <= v < centers@.len() ==> center_ok(
                    (#[trigger] centers@[v])@,
                    ds.dimensionality as int,
                ),
            rem@.len() == c - j,
            out@.len() == j,
            extras@.len() == n,
            forall|v: int| 0 <= v < n ==> #[trigger] extras@[v] <= max_spill,
            forall|x: usize| #[trigger] total_count(out@, x) + total_count(rem@, x)
                == total_count(orig, x) + (if (x as int) < n {
                extras@[x as int] as int
            } else {
                0int
            }),
            forall|x: usize| #[trigger] total_count(orig, x) == (if (x as int) < n {
                1int
            } else {
                0int
            }),
        decreases c - j,
    {
        proof {
            assert forall|x: usize| #[trigger] total_count(rem@.remove(0), x) == total_count(
                rem@,
                x,
            ) - count_in(rem@[0]@, x) by {
                lemma_family_remove0(rem@, x);
            }
        }
        let mut cur = rem.remove(0);
        let ghost cur0 = cur@;
        let mut i: usize = 0;
        while i < n
            invariant
                i <= n,
                j < c,
                c == centers@.len(),
                n == ds@.len(),
                trainable(*ds),
                assign@.len() == n,
                forall|v: int| 0 <= v < assign@.len() ==> (#[trigger] assign@[v]) < c,
                forall|v: int|
                    0 <= v < centers@.len() ==> center_ok(
                        (#[trigger] centers@[v])@,
                        ds.dimensionality as int,
                    ),
                extras@.len() == n,
                forall|v: int| 0 <= v < n ==> #[trigger] extras@[v] <= max_spill,
                forall|x: usize| #[trigger] count_in(cur@, x) + total_count(out@, x) + total_count(
                    rem@,
                    x,
                ) == total_count(orig, x) + (if (x as int) < n {
                    extras@[x as int] as int
                } else {
                    0int
                }),
                forall|x: usize| #[trigger] total_count(orig, x) == (if (x as int) < n {
                    1int
                } else {
                    0int
                }),
            decreases n - i,
        {
            if assign[i] != j && extras[i] < max_spill {
                let row = ds.row(i);
                proof {
                    crate::distance::lemma_dot_bounds_narrow(row@, centers@[j as int]@);
                    crate::distance::lemma_narrow_implies_wide(row@);
                    crate::distance::lemma_narrow_implies_wide(centers@[j as int]@);
                    crate::distance::lemma_squared_l2_nonneg(row@, centers@[j as int]@);
                    crate::distance::lemma_dot_bounds_narrow(row@, centers@[assign@[i as int] as int]@);
                    crate::distance::lemma_narrow_implies_wide(centers@[assign@[i as int] as int]@);
                    crate::distance::lemma_squared_l2_nonneg(
                        row@,
                        centers@[assign@[i as int] as int]@,
                    );
                }
                let dj = crate::distance::sum_squared_diffs(row.as_slice(), centers[j].as_slice());
                let dp = crate::distance::sum_squared_diffs(
                    row.as_slice(),
                    centers[assign[i]].as_slice(),
                );
                proof {
                    assert(-42535295865117307932921825928971026432int <= (factor as int) * (
                    dp as int) <= 42535295865117307932921825928971026432int) by (nonlinear_arith)
                        requires
                            -9223372036854775808int <= factor as int <= 9223372036854775807int,
                            0 <= dp as int <= 4503599627370496int,
                    ;
                    assert(0 <= (dj as int) * (crate::distance::SCALE as int)
                        <= 4722366482869645213696000000int) by (nonlinear_arith)
                        requires
                            0 <= dj as int <= 4503599627370496int,
                    ;
                }
                let lhs: i128 = dj * (crate::distance::SCALE as i128);
                let rhs: i128 = (factor as i128) * dp;
                if lhs <= rhs {
                    let ghost curpre = cur@;
                    let ghost extraspre = extras@;
                    cur.push(i);
                    let bumped = extras[i] + 1;
                    extras.set(i, bumped);
                    proof {
                        assert forall|x: usize| #[trigger] count_in(cur@, x) + total_count(out@, x)
                            + total_count(rem@, x) == total_count(orig, x) + (if (x as int) < n {
                            extras@[x as int] as int
                        } else {
                            0int
                        }) by {
                            lemma_count_in_push(curpre, i, x);
                        }
                    }
                }
            }
            i += 1;
        }
        proof {
            assert forall|x: usize| #[trigger] total_count(out@.push(cur), x) + total_count(
                rem@,
                x,
            ) == total_count(orig, x) + (if (x as int) < n {
                extras@[x as int] as int
            } else {
                0int
            }) by {
                lemma_family_push(out@, cur, x);
            }
        }
        out.push(cur);
        j += 1;
    }
    proof {
        assert forall|x: usize| (x as int) < ds@.len() implies 1 <= #[trigger] total_count(out@, x)
            <= 1 + max_spill by {
            assert(total_count(rem@, x) == 0);
        }
        assert forall|x: usize| (x as int) >= ds@.len() implies #[trigger] total_count(out@, x)
            == 0 by {
            assert(total_count(rem@, x) == 0);
        }
    }
    out
}

/// How many nodes of the arena are leaves.
pub open spec fn count_leaves(nodes: Seq<KMeansTreeNode>) -> int
    decreases nodes.len(),
{
    if nodes.len() == 0 {
        0
    } else {
        count_leaves(nodes.drop_last()) + if nodes.last().children@.len() == 0 {
            1int
        } else {
            0int
        }
    }
}

/// The child of `node` whose center is nearest the query among its first
/// `upto` children, ties to the earlier child.
pub open spec fn spec_best_child(
    t: KMeansTree,
    m: DistanceMeasure,
    q: Seq<i64>,
    node: int,
    upto: int,
) -> int
    decreases upto,
{
    if upto <= 1 {
        t.nodes@[node].children@[0] as int
    } else {
        let prev = spec_best_child(t, m, q, node, upto - 1);
        let cand = t.nodes@[node].children@[upto - 1] as int;
        if crate::distance::spec_distance(m, q, t.nodes@[cand].center@)
            < crate::distance::spec_distance(m, q, t.nodes@[prev].center@) {
            cand
        } else {
            prev
        }
    }
}

/// The node the nearest-child descent reaches from `node` within `fuel`
/// steps.
pub open spec fn spec_descend(t: KMeansTree, m: DistanceMeasure, q: Seq<i64>, node: int, fuel: int) -> int
    decreases fuel,
{
    if fuel <= 0 || t.nodes@[node].children@.len() == 0 {
        node
    } else {
        spec_descend(
            t,
            m,
            q,
            spec_best_child(t, m, q, node, t.nodes@[node].children@.len() as int),
            fuel - 1,
        )
    }
}

/// The leaf the nearest-child descent reaches from the root.
pub open spec fn spec_nearest_leaf(t: KMeansTree, m: DistanceMeasure, q: Seq<i64>) -> int {
    spec_descend(t, m, q, 0, t.nodes@.len() as int)
}

/// The best child among any prefix of the children is one of them, so it
/// points strictly forward in the arena.
proof fn lemma_best_child_range(t: KMeansTree, m: DistanceMeasure, q: Seq<i64>, node: int, upto: int)
    requires
        tree_wf(t),
        0 <= node < t.nodes@.len(),
        1 <= upto <= t.nodes@[node].children@.len(),
    ensures
        node < spec_best_child(t, m, q, node, upto) < t.nodes@.len(),
    decreases upto,
{
    if upto > 1 {
        lemma_best_child_range(t, m, q, node, upto - 1);
    }
}

/// Any fuel that covers the remaining arena reaches the same leaf.
proof fn lemma_descend_fuel(t: KMeansTree, m: DistanceMeasure, q: Seq<i64>, node: int, f1: int, f2: int)
    requires
        tree_wf(t),
        0 <= node < t.nodes@.len(),
        f1 >= t.nodes@.len() - node,
        f2 >= t.nodes@.len() - node,
    ensures
        spec_descend(t, m, q, node, f1) == spec_descend(t, m, q, node, f2),
    decreases t.nodes@.len() - node,
{
    if t.nodes@[node].children@.len() > 0 {
        let c = spec_best_child(t, m, q, node, t.nodes@[node].children@.len() as int);
        lemma_best_child_range(t, m, q, node, t.nodes@[node].children@.len() as int);
        lemma_descend_fuel(t, m, q, c, f1 - 1, f2 - 1);
    }
}

impl KMeansTree {
    /// Descends from the root, at each internal node stepping to the
    /// child whose center is nearest the query under the measure (ties
    /// to the lowest-indexed child), until a leaf is reached: exactly the
    /// leaf `spec_nearest_leaf` names.
    pub fn nearest_leaf(&self, measure: &DistanceMeasure, query: &[i64]) -> (leaf: usize)
        requires
            tree_wf(*self),
            tree_centers_ok(self.nodes@, query@.len() as int),
            self.nodes@[0].children@.len() > 0,
            crate::distance::narrow_vector(query@),
        ensures
            leaf < self.nodes@.len(),
            self.nodes@[leaf as int].children@.len() == 0,
            leaf as int == spec_nearest_leaf(*self, *measure, query@),
    {
        let ghost t = *self;
        let ghost m = *measure;
        let ghost nn = self.nodes@.len() as int;
        let mut cur: usize = 0;
        while self.nodes[cur].children.len() > 0
            invariant
                cur < self.nodes@.len(),
                tree_wf(*self),
                tree_centers_ok(self.nodes@, query@.len() as int),
                crate::distance::narrow_vector(query@),
                t == *self,
                m == *measure,
                nn == self.nodes@.len() as int,
                spec_descend(t, m, query@, cur as int, nn - cur) == spec_nearest_leaf(
                    t,
                    m,
                    query@,
                ),
            decreases self.nodes@.len() - cur,
        {
            let node = &self.nodes[cur];
            let mut best: usize = node.children[0];
            proof {
                crate::distance::lemma_narrow_implies_wide(query@);
                crate::distance::lemma_narrow_implies_wide(self.nodes@[best as int].center@);
            }
            let mut bestd: i128 = crate::distance::distance_on_slices(
                measure,
                query,
                self.nodes[best].center.as_slice(),
            );
            let mut k: usize = 1;
            while k < node.children.len()
                invariant
                    1 <= k <= node.children@.len(),
                    cur < self.nodes@.len(),
                    node == &self.nodes@[cur as int],
                    tree_wf(*self),
                    tree_centers_ok(self.nodes@, query@.len() as int),
                    crate::distance::narrow_vector(query@),
                    cur < best < self.nodes@.len(),
                    t == *self,
                    m == *measure,
                    best as int == spec_best_child(t, m, query@, cur as int, k as int),
                    bestd == crate::distance::spec_distance(
                        m,
                        query@,
                        self.nodes@[best as int].center@,
                    ),
                decreases node.children@.len() - k,
            {
                let cand = node.children[k];
                proof {
                    crate::distance::lemma_narrow_implies_wide(query@);
                    crate::distance::lemma_narrow_implies_wide(self.nodes@[cand as int].center@);
                }
                let d = crate::distance::distance_on_slices(
                    measure,
                    query,
                    self.nodes[cand].center.as_slice(),
                );
                if d < bestd {
                    best = cand;
                    bestd = d;
                }
                proof {
                    assert(best as int == spec_best_child(t, m, query@, cur as int, k + 1));
                }
                k += 1;
            }
            proof {
                let clen = self.nodes@[cur as int].children@.len() as int;
                assert(best as int == spec_best_child(t, m, query@, cur as int, clen));
                lemma_best_child_range(t, m, query@, cur as int, clen);
                assert(spec_descend(t, m, query@, cur as int, nn - cur) == spec_descend(
                    t,
                    m,
                    query@,
                    best as int,
                    nn - cur - 1,
                ));
                lemma_descend_fuel(t, m, query@, best as int, nn - cur - 1, nn - best);
            }
            cur = best;
        }
        proof {
            assert(spec_descend(t, m, query@, cur as int, nn - cur) == cur as int);
        }
        cur
    }
}

/// Trains a k-means tree over the dataset: seeded initialization,
/// iterative refinement, optional greedy balancing, optional spilling,
/// and recursive splitting of oversized leaves down to the level cap.
///
/// Fails with `InvalidArgument`, and only then, on an empty dataset or
/// ill-formed sizes. On success the tree holds every point: exactly once
/// without spilling; with spilling, between once and once plus
/// `max_spill_centers` times. Under `GreedyBalanced` without spilling,
/// whenever the dataset is large enough to make the bounds satisfiable,
/// every leaf's point count lies in `[min_cluster_size, max_leaf_size]`.
pub fn train(
    ds: &DenseDataset<i64>,
    measure: &DistanceMeasure,
    options: &KMeansTreeTrainingOptions,
) -> (r: Result<KMeansTree, ScannError>)
    requires
        trainable(*ds),
    ensures
        ds@.len() == 0 || !options.sizes_ok() ==> (r matches Err(e) && e.kind
            == ErrorKind::InvalidArgument),
        ds@.len() > 0 && options.sizes_ok() ==> (r matches Ok(t) && {
            &&& tree_wf(t)
            &&& t.n_points == ds@.len()
            &&& tree_centers_ok(t.nodes@, ds.dimensionality as int)
            &&& t.nodes@[0].children@.len() > 0
            &&& !spill_active(*options) ==> forall|x: usize|
                (x as int) < ds@.len() ==> #[trigger] occurrences(t.nodes@, x) == 1
            &&& spill_active(*options) ==> forall|x: usize|
                (x as int) < ds@.len() ==> 1 <= #[trigger] occurrences(t.nodes@, x) <= 1
                    + options.max_spill_centers
            &&& options.balancing_type == BalancingType::GreedyBalanced && !spill_active(*options)
                && balance_feasible(
                ds@.len() as int,
                options.min_cluster_size as int,
                options.max_leaf_size as int,
            ) ==> balanced_leaves(
                t.nodes@,
                options.min_cluster_size as int,
                options.max_leaf_size as int,
            )
        }),
{
    let n = ds.size();
    if n == 0 {
        return Err(invalid_argument_error("Cannot train a partitioner on an empty dataset"));
    }
    match options.validate() {
        Ok(()) => {},
        Err(e) => {
            return Err(e);
        },
    }
    let lbig: i64 = options.max_leaf_size;
    let lsz_eff: usize = if (lbig as u128) >= (n as u128) {
        n
    } else {
        lbig as usize
    };
    let thr: usize = if (lbig as u128) > (usize::MAX as u128) {
        usize::MAX
    } else {
        lbig as usize
    };
    let q: usize = n / lsz_eff;
    let rm: usize = n % lsz_eff;
    proof {
        vstd::arithmetic::div_mod::lemma_fundamental_div_mod(n as int, lsz_eff as int);
        vstd::arithmetic::div_mod::lemma_div_nonincreasing(n as int, lsz_eff as int);
        if rm != 0 {
            assert(q as int <= (lsz_eff as int) * (q as int)) by (nonlinear_arith)
                requires
                    lsz_eff as int >= 1,
                    q as int >= 0,
            ;
        }
    }
    let c: usize = if rm == 0 {
        q
    } else {
        q + 1
    };
    proof {
        lemma_ceil_div_bounds(n as int, lsz_eff as int);
        assert(c as int == ceil_div(n as int, lsz_eff as int));
        if lbig as int > n as int {
            // with a leaf cap beyond the dataset, one leaf suffices either way
            vstd::arithmetic::div_mod::lemma_basic_div(n as int, lbig as int);
            vstd::arithmetic::div_mod::lemma_small_mod(n as nat, lbig as nat);
            assert(ceil_div(n as int, lbig as int) == 1);
            lemma_ceil_div_bounds(n as int, n as int);
            assert(ceil_div(n as int, n as int) * (n as int) >= n as int);
            assert(n as int / n as int >= 1) by {
                vstd::arithmetic::div_mod::lemma_div_by_self(n as int);
            }
            assert(ceil_div(n as int, n as int) <= n as int);
        }
    }
    let mut ids: Vec<usize> = Vec::new();
    let mut i: usize = 0;
    while i < n
        invariant
            i <= n,
            ids@.len() == i,
            forall|v: int| 0 <= v < i ==> #[trigger] ids@[v] == v,
        decreases n - i,
    {
        ids.push(i);
        i += 1;
    }
    let cluster = cluster_subset(measure, ds, &ids, c, options);
    let centers = cluster.0;
    let assign = cluster.1;
    let mut lists = split_by_assignment(&ids, &assign, c);
    proof {
        assert forall|x: usize| #[trigger] total_count(lists@, x) == (if (x as int) < n as int {
            1int
        } else {
            0int
        }) by {
            lemma_count_identity(ids@, x);
        }
    }
    let spill = match options.learned_spilling_type {
        proto::SpillingType::FixedNumberOfCenters => options.max_spill_centers > 0,
        _ => false,
    };
    let is_greedy = match options.balancing_type {
        BalancingType::GreedyBalanced => true,
        _ => false,
    };
    let minsz: i64 = options.min_cluster_size;
    proof {
        assert((c as int) * (minsz as int) <= 340282366920938463463374607431768211455int)
            by (nonlinear_arith)
            requires
                0 <= c as int <= 18446744073709551615int,
                0 <= minsz as int <= 9223372036854775807int,
        ;
    }
    let feasible_rt = (c as u128) * (minsz as u128) <= (n as u128);
    let ghost bguard = options.balancing_type == BalancingType::GreedyBalanced && !spill_active(
        *options,
    ) && balance_feasible(n as int, options.min_cluster_size as int, options.max_leaf_size as int);
    let mut spillmax: usize = 0;
    if is_greedy && !spill && feasible_rt {
        proof {
            assert((c as int) * (minsz as int) <= n as int);
            assert(minsz as int <= n as int) by (nonlinear_arith)
                requires
                    (c as int) * (minsz as int) <= n as int,
                    c as int >= 1,
                    minsz as int >= 0,
            ;
            assert(minsz as int <= lsz_eff as int);
        }
        let min_eff: usize = minsz as usize;
        let targets = build_targets(c, min_eff, lsz_eff, n);
        lists = rebalance(lists, &targets);
        proof {
            assert(forall|j: int|
                0 <= j < lists@.len() ==> minsz as int <= (#[trigger] lists@[j])@.len()
                    <= lbig as int);
        }
    } else if spill {
        let ms: i64 = options.max_spill_centers;
        spillmax = if (ms as u128) > (usize::MAX as u128) {
            usize::MAX
        } else {
            ms as usize
        };
        lists = apply_spilling(
            ds,
            lists,
            &centers,
            &assign,
            options.per_node_spilling_factor,
            spillmax,
        );
    }
    proof {
        if bguard {
            assert(feasible_rt) by {
                assert(ceil_div(n as int, options.max_leaf_size as int) == c as int);
            }
        }
        assert forall|j: int, p: int|
            0 <= j < lists@.len() && 0 <= p < lists@[j]@.len() implies #[trigger] lists@[j]@[p] < n by {
            let x = lists@[j]@[p];
            lemma_count_in_contains(lists@[j]@, x);
            lemma_family_member(lists@, j, x);
            if (x as int) >= n as int {
                assert(total_count(lists@, x) == 0);
            }
        }
    }
    // assemble the arena: root first, then one leaf per cluster
    let mut root_children: Vec<usize> = Vec::new();
    let mut j: usize = 0;
    while j < c
        invariant
            j <= c,
            c <= n,
            root_children@.len() == j,
            forall|v: int| 0 <= v < j ==> #[trigger] root_children@[v] == v + 1,
        decreases c - j,
    {
        root_children.push(j + 1);
        j += 1;
    }
    let mut nodes: Vec<KMeansTreeNode> = Vec::new();
    nodes.push(
        KMeansTreeNode { center: Vec::new(), children: root_children, point_ids: Vec::new() },
    );
    let ghost tc = lists@;
    proof {
        assert forall|x: usize| #[trigger] occurrences(nodes@, x) + total_count(lists@, x)
            == total_count(tc, x) by {
            assert(nodes@.drop_last().len() == 0);
            assert(occurrences(nodes@.drop_last(), x) == 0);
            assert(count_in(nodes@.last().point_ids@, x) == 0);
        }
    }
    let mut rem_lists = lists;
    let mut rem_centers = centers;
    let mut j2: usize = 0;
    while j2 < c
        invariant
            j2 <= c,
            c <= n,
            rem_lists@.len() == c - j2,
            rem_centers@.len() == c - j2,
            nodes@.len() == j2 + 1,
            trainable(*ds),
            nodes@[0].children@.len() == c,
            forall|v: int|
                0 <= v < rem_centers@.len() ==> center_ok(
                    (#[trigger] rem_centers@[v])@,
                    ds.dimensionality as int,
                ),
            forall|v: int|
                1 <= v < nodes@.len() ==> center_ok(
                    (#[trigger] nodes@[v]).center@,
                    ds.dimensionality as int,
                ),
            forall|v: int| 0 <= v < c ==> #[trigger] nodes@[0].children@[v] == v + 1,
            nodes@[0].point_ids@.len() == 0,
            forall|v: int| 1 <= v < nodes@.len() ==> (#[trigger] nodes@[v]).children@.len() == 0,
            forall|v: int| 0 <= v < rem_lists@.len() ==> rem_lists@[v] == tc[j2 + v],
            forall|v: int, p: int|
                0 <= v < tc.len() && 0 <= p < tc[v]@.len() ==> #[trigger] tc[v]@[p] < n,
            forall|v: int|
                1 <= v < nodes@.len() ==> (#[trigger] nodes@[v]).point_ids == tc[v - 1],
            forall|x: usize| #[trigger] occurrences(nodes@, x) + total_count(rem_lists@, x)
                == total_count(tc, x),
        decreases c - j2,
    {
        proof {
            assert forall|x: usize| #[trigger] total_count(rem_lists@.remove(0), x) == total_count(
                rem_lists@,
                x,
            ) - count_in(rem_lists@[0]@, x) by {
                lemma_family_remove0(rem_lists@, x);
            }
        }
        let leaf_points = rem_lists.remove(0);
        let leaf_center = rem_centers.remove(0);
        let node = KMeansTreeNode {
            center: leaf_center,
            children: Vec::new(),
            point_ids: leaf_points,
        };
        proof {
            assert forall|x: usize| #[trigger] occurrences(nodes@.push(node), x) + total_count(
                rem_lists@,
                x,
            ) == total_count(tc, x) by {
                lemma_occ_push(nodes@, node, x);
            }
        }
        nodes.push(node);
        j2 += 1;
    }
    proof {
        assert(forall|x: usize| #[trigger] total_count(rem_lists@, x) == 0);
    }
    // recursively split oversized leaves, one level per pass
    let mut remaining: i64 = if options.max_num_levels > 1 {
        options.max_num_levels - 1
    } else {
        0
    };
    while remaining > 0
        invariant
            trainable(*ds),
            n == ds@.len() && n > 0,
            nodes@.len() >= 1,
            options.max_iterations >= 0,
            options.max_leaf_size >= 1,
            thr >= 1,
            thr as int == vstd::math::min(options.max_leaf_size as int, usize::MAX as int),
            forall|i2: int, k: int|
                0 <= i2 < nodes@.len() && 0 <= k < nodes@[i2].children@.len()
                    ==> i2 < #[trigger] nodes@[i2].children@[k] < nodes@.len(),
            forall|i2: int|
                0 <= i2 < nodes@.len() && (#[trigger] nodes@[i2]).children@.len() > 0
                    ==> nodes@[i2].point_ids@.len() == 0,
            forall|i2: int, p: int|
                0 <= i2 < nodes@.len() && 0 <= p < nodes@[i2].point_ids@.len()
                    ==> #[trigger] nodes@[i2].point_ids@[p] < n,
            forall|x: usize| #[trigger] occurrences(nodes@, x) == total_count(tc, x),
            tree_centers_ok(nodes@, ds.dimensionality as int),
            nodes@[0].children@.len() > 0,
            bguard ==> balanced_leaves(
                nodes@,
                options.min_cluster_size as int,
                options.max_leaf_size as int,
            ),
        decreases remaining,
    {
        let snapshot = nodes.len();
        let mut any_split = false;
        let mut idx: usize = 0;
        while idx < snapshot
            invariant
                idx <= snapshot,
                snapshot <= nodes@.len(),
                trainable(*ds),
                n == ds@.len() && n > 0,
                nodes@.len() >= 1,
                options.max_iterations >= 0,
                options.max_leaf_size >= 1,
                thr >= 1,
                thr as int == vstd::math::min(options.max_leaf_size as int, usize::MAX as int),
                forall|i2: int, k: int|
                    0 <= i2 < nodes@.len() && 0 <= k < nodes@[i2].children@.len()
                        ==> i2 < #[trigger] nodes@[i2].children@[k] < nodes@.len(),
                forall|i2: int|
                    0 <= i2 < nodes@.len() && (#[trigger] nodes@[i2]).children@.len() > 0
                        ==> nodes@[i2].point_ids@.len() == 0,
                forall|i2: int, p: int|
                    0 <= i2 < nodes@.len() && 0 <= p < nodes@[i2].point_ids@.len()
                        ==> #[trigger] nodes@[i2].point_ids@[p] < n,
                forall|x: usize| #[trigger] occurrences(nodes@, x) == total_count(tc, x),
                tree_centers_ok(nodes@, ds.dimensionality as int),
                nodes@[0].children@.len() > 0,
                bguard ==> balanced_leaves(
                    nodes@,
                    options.min_cluster_size as int,
                    options.max_leaf_size as int,
                ),
            decreases snapshot - idx,
        {
            let is_big_leaf = nodes[idx].children.len() == 0 && nodes[idx].point_ids.len() > thr;
            if is_big_leaf {
                proof {
                    if bguard {
                        assert(nodes@[idx as int].point_ids@.len()
                            <= options.max_leaf_size as int);
                        assert(false);
                    }
                }
                let ids2 = copy_ids(nodes[idx].point_ids.as_slice());
                let len2 = ids2.len();
                let q2: usize = len2 / thr;
                let rm2x: usize = len2 % thr;
                proof {
                    vstd::arithmetic::div_mod::lemma_fundamental_div_mod(len2 as int, thr as int);
                    vstd::arithmetic::div_mod::lemma_div_nonincreasing(len2 as int, thr as int);
                    if rm2x != 0 {
                        assert(q2 as int <= (thr as int) * (q2 as int)) by (nonlinear_arith)
                            requires
                                thr as int >= 1,
                                q2 as int >= 0,
                        ;
                    }
                }
                let c2: usize = if rm2x == 0 {
                    q2
                } else {
                    q2 + 1
                };
                proof {
                    lemma_ceil_div_bounds(len2 as int, thr as int);
                }
                if c2 <= usize::MAX - nodes.len() {
                    let sub = cluster_subset(measure, ds, &ids2, c2, options);
                    let centers2 = sub.0;
                    let assign2 = sub.1;
                    let lists2 = split_by_assignment(&ids2, &assign2, c2);
                    let base = nodes.len();
                    let mut new_children: Vec<usize> = Vec::new();
                    let mut v: usize = 0;
                    while v < c2
                        invariant
                            v <= c2,
                            base + c2 <= usize::MAX,
                            new_children@.len() == v,
                            forall|w: int|
                                0 <= w < v ==> #[trigger] new_children@[w] == base + w,
                        decreases c2 - v,
                    {
                        new_children.push(base + v);
                        v += 1;
                    }
                    let old_center = copy_row(nodes[idx].center.as_slice());
                    let ghost pre = nodes@;
                    let ghost oldpts = nodes@[idx as int].point_ids@;
                    let newnode = KMeansTreeNode {
                        center: old_center,
                        children: new_children,
                        point_ids: Vec::new(),
                    };
                    proof {
                        assert forall|x: usize| #[trigger] occurrences(
                            pre.update(idx as int, newnode),
                            x,
                        ) == occurrences(pre, x) - count_in(oldpts, x) by {
                            lemma_occ_update(pre, idx as int, newnode, x);
                        }
                    }
                    nodes.set(idx, newnode);
                    let ghost tc2 = lists2@;
                    proof {
                        assert(ids2@ == oldpts);
                        assert forall|x: usize| #[trigger] total_count(tc2, x) == count_in(
                            oldpts,
                            x,
                        ) by {
                            assert(total_count(tc2, x) == count_in(ids2@, x));
                        }
                        assert forall|v2: int, p: int|
                            0 <= v2 < tc2.len() && 0 <= p < tc2[v2]@.len() implies #[trigger] tc2[v2]@[p]
                            < n by {
                            let x = tc2[v2]@[p];
                            lemma_count_in_contains(tc2[v2]@, x);
                            lemma_family_member(tc2, v2, x);
                            assert(count_in(oldpts, x) > 0);
                            lemma_count_in_contains(oldpts, x);
                            let w = choose|w: int| 0 <= w < oldpts.len() && oldpts[w] == x;
                            assert(pre[idx as int].point_ids@[w] < n);
                        }
                    }
                    let mut rem2 = lists2;
                    let mut remc2 = centers2;
                    let mut w2: usize = 0;
                    while w2 < c2
                        invariant
                            w2 <= c2,
                            trainable(*ds),
                            n == ds@.len(),
                            rem2@.len() == c2 - w2,
                            remc2@.len() == c2 - w2,
                            tc2.len() == c2,
                            forall|v2: int|
                                0 <= v2 < remc2@.len() ==> center_ok(
                                    (#[trigger] remc2@[v2])@,
                                    ds.dimensionality as int,
                                ),
                            tree_centers_ok(nodes@, ds.dimensionality as int),
                            nodes@[0].children@.len() > 0,
                            nodes@.len() == base + w2,
                            base + c2 <= usize::MAX,
                            idx < base,
                            forall|v2: int| 0 <= v2 < rem2@.len() ==> rem2@[v2] == tc2[w2 + v2],
                            forall|v2: int, p: int|
                                0 <= v2 < tc2.len() && 0 <= p < tc2[v2]@.len()
                                    ==> #[trigger] tc2[v2]@[p] < n,
                            forall|i2: int, k: int|
                                0 <= i2 < nodes@.len() && 0 <= k < nodes@[i2].children@.len()
                                    ==> i2 < #[trigger] nodes@[i2].children@[k] < base + c2,
                            forall|i2: int|
                                0 <= i2 < nodes@.len() && (#[trigger] nodes@[i2]).children@.len()
                                    > 0 ==> nodes@[i2].point_ids@.len() == 0,
                            forall|i2: int, p: int|
                                0 <= i2 < nodes@.len() && 0 <= p < nodes@[i2].point_ids@.len()
                                    ==> #[trigger] nodes@[i2].point_ids@[p] < n,
                            forall|x: usize| #[trigger] occurrences(nodes@, x) + count_in(oldpts, x)
                                == total_count(tc, x) + (total_count(tc2, x) - total_count(
                                rem2@,
                                x,
                            )),
                            forall|x: usize| #[trigger] total_count(tc2, x) == count_in(oldpts, x),
                        decreases c2 - w2,
                    {
                        proof {
                            assert forall|x: usize| #[trigger] total_count(rem2@.remove(0), x)
                                == total_count(rem2@, x) - count_in(rem2@[0]@, x) by {
                                lemma_family_remove0(rem2@, x);
                            }
                        }
                        let lp = rem2.remove(0);
                        let lc = remc2.remove(0);
                        let node2 = KMeansTreeNode {
                            center: lc,
                            children: Vec::new(),
                            point_ids: lp,
                        };
                        proof {
                            assert forall|x: usize| #[trigger] occurrences(nodes@.push(node2), x)
                                == occurrences(nodes@, x) + count_in(node2.point_ids@, x) by {
                                lemma_occ_push(nodes@, node2, x);
                            }
                        }
                        nodes.push(node2);
                        proof {
                            assert(node2.point_ids@ == tc2[w2 as int]@);
                            assert forall|p: int|
                                0 <= p < node2.point_ids@.len() implies node2.point_ids@[p]
                                < n by {
                                assert(tc2[w2 as int]@[p] < n);
                            }
                        }
                        w2 += 1;
                    }
                    proof {
                        assert(forall|x: usize| #[trigger] total_count(rem2@, x) == 0);
                        assert forall|x: usize| #[trigger] occurrences(nodes@, x) == total_count(
                            tc,
                            x,
                        ) by {
                            assert(occurrences(nodes@, x) + count_in(oldpts, x) == total_count(
                                tc,
                                x,
                            ) + total_count(tc2, x));
                        }
                    }
                    any_split = true;
                }
            }
            idx += 1;
        }
        if !any_split {
            break ;
        }
        remaining -= 1;
    }
    let tree = KMeansTree { nodes, n_points: n };
    proof {
        assert(tree_wf(tree));
        if !spill_active(*options) {
            assert forall|x: usize| (x as int) < ds@.len() implies #[trigger] occurrences(
                tree.nodes@,
                x,
            ) == 1 by {
                assert(total_count(tc, x) == 1);
            }
        }
        if spill_active(*options) {
            assert forall|x: usize| (x as int) < ds@.len() implies 1 <= #[trigger] occurrences(
                tree.nodes@,
                x,
            ) <= 1 + options.max_spill_centers by {
                assert(1 <= total_count(tc, x) <= 1 + spillmax);
            }
        }
    }
    Ok(tree)
}

/// The one-way trained state: a handle holding no tree until a training
/// succeeds, then the latest successfully trained tree. A failed
/// retraining never touches the published tree; a successful one
/// replaces it wholesale.
#[derive(Debug)]
pub struct KMeansTreePartitioner {
    pub trained: Option<KMeansTree>,
}

impl KMeansTreePartitioner {
    /// The untrained state.
    pub fn new() -> (r: Self)
        ensures
            r.trained is None,
    {
        KMeansTreePartitioner { trained: None }
    }

    /// Whether a trained tree is published.
    pub fn is_trained(&self) -> (r: bool)
        ensures
            r == (self.trained is Some),
    {
        match &self.trained {
            Some(_) => true,
            None => false,
        }
    }

    /// Trains a new tree and publishes it only on success: on failure the
    /// previously published tree, if any, is untouched. A published tree
    /// carries all of `train`'s guarantees: structure, point coverage,
    /// the spilling bound, and leaf balance under `GreedyBalanced`.
    pub fn train_and_swap(
        &mut self,
        ds: &DenseDataset<i64>,
        measure: &DistanceMeasure,
        options: &KMeansTreeTrainingOptions,
    ) -> (r: Result<(), ScannError>)
        requires
            trainable(*ds),
        ensures
            ds@.len() == 0 || !options.sizes_ok() ==> (r matches Err(e) && e.kind
                == ErrorKind::InvalidArgument && final(self).trained == old(self).trained),
            ds@.len() > 0 && options.sizes_ok() ==> (r is Ok && (final(self).trained matches Some(
                t,
            ) && {
                &&& tree_wf(t)
                &&& t.n_points == ds@.len()
                &&& tree_centers_ok(t.nodes@, ds.dimensionality as int)
                &&& t.nodes@[0].children@.len() > 0
                &&& !spill_active(*options) ==> forall|x: usize|
                    (x as int) < ds@.len() ==> #[trigger] occurrences(t.nodes@, x) == 1
                &&& spill_active(*options) ==> forall|x: usize|
                    (x as int) < ds@.len() ==> 1 <= #[trigger] occurrences(t.nodes@, x) <= 1
                        + options.max_spill_centers
                &&& options.balancing_type == BalancingType::GreedyBalanced && !spill_active(
                    *options,
                ) && balance_feasible(
                    ds@.len() as int,
                    options.min_cluster_size as int,
                    options.max_leaf_size as int,
                ) ==> balanced_leaves(
                    t.nodes@,
                    options.min_cluster_size as int,
                    options.max_leaf_size as int,
                )
            })),
    {
        match train(ds, measure, options) {
            Ok(t) => {
                self.trained = Some(t);
                Ok(())
            },
            Err(e) => Err(e),
        }
    }

    /// The published tree. Fails with `FailedPrecondition`, and only
    /// then, before the first successful training.
    pub fn tree(&self) -> (r: Result<&KMeansTree, ScannError>)
        ensures
            self.trained matches Some(t) ==> (r matches Ok(got) && *got == t),
            self.trained is None ==> (r matches Err(e) && e.kind == ErrorKind::FailedPrecondition),
    {
        match &self.trained {
            Some(t) => Ok(t),
            None => Err(
                crate::error::failed_precondition_error(
                    "The partitioner has not been trained yet",
                ),
            ),
        }
    }
}

/// An id with a zero count does not occur, and one with a positive count
/// does.
pub proof fn lemma_count_in_contains(s: Seq<usize>, x: usize)
    ensures
        count_in(s, x) > 0 <==> s.contains(x),
    decreases s.len(),
{
    if s.len() > 0 {
        lemma_count_in_contains(s.drop_last(), x);
        lemma_count_in_bounds(s.drop_last(), x);
        if s.contains(x) {
            let i = choose|i: int| 0 <= i < s.len() && s[i] == x;
            if i < s.len() - 1 {
                assert(s.drop_last()[i] == x);
                assert(s.drop_last().contains(x));
            }
        }
        if s.drop_last().contains(x) {
            let i = choose|i: int| 0 <= i < s.drop_last().len() && s.drop_last()[i] == x;
            assert(s[i] == x);
        }
    }
}

} // verus!

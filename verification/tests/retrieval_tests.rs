//! The retrieval engine: brute-force top-k, ranking order, chunked
//! retrieval, and the tree-pruned path.

use scann::distance::SCALE;
use scann::trees::train;
use scann::DatapointPtr;
use scann::DenseDataset;
use scann::DistanceMeasure;
use scann::ErrorKind;
use scann::KMeansTreeTrainingOptions;
use scann::ScannRetriever;

fn line_dataset(n: usize, dim: usize) -> DenseDataset<i64> {
    let mut ds: DenseDataset<i64> = DenseDataset::with_dimensionality(dim);
    for i in 0..n {
        let mut row = vec![0i64; dim];
        for (c, slot) in row.iter_mut().enumerate() {
            *slot = (i as i64) + (c as i64 % 3);
        }
        ds.append(&row, "").unwrap();
    }
    ds
}

#[test]
fn search_returns_min_of_k_and_size() {
    let ds = line_dataset(10, 4);
    let query = DatapointPtr::new(vec![0i64; 4]);

    let r = ScannRetriever::new(ds.clone(), DistanceMeasure::SquaredL2Distance, 3);
    assert_eq!(r.search(&query).unwrap().len(), 3);

    let r = ScannRetriever::new(ds, DistanceMeasure::SquaredL2Distance, 50);
    assert_eq!(r.search(&query).unwrap().len(), 10);
}

#[test]
fn search_results_are_sorted_by_distance_then_id() {
    let ds = line_dataset(30, 3);
    let query = DatapointPtr::new(vec![7i64, 8, 9]);
    let r = ScannRetriever::new(ds, DistanceMeasure::L1Distance, 30);
    let res = r.search(&query).unwrap();
    for w in res.windows(2) {
        assert!(w[0].1 < w[1].1 || (w[0].1 == w[1].1 && w[0].0 < w[1].0));
    }
}

#[test]
fn search_finds_the_true_nearest_neighbor() {
    let mut ds: DenseDataset<i64> = DenseDataset::with_dimensionality(2);
    ds.append(&[0, 0], "").unwrap();
    ds.append(&[10, 10], "").unwrap();
    ds.append(&[3, 3], "").unwrap();
    let r = ScannRetriever::new(ds, DistanceMeasure::SquaredL2Distance, 1);
    let res = r.search(&DatapointPtr::new(vec![4, 4])).unwrap();
    assert_eq!(res.len(), 1);
    assert_eq!(res[0].0, 2);
    assert_eq!(res[0].1, 2);
}

#[test]
fn search_rejects_wrong_query_length() {
    let ds = line_dataset(5, 3);
    let r = ScannRetriever::new(ds, DistanceMeasure::L1Distance, 2);
    let err = r.search(&DatapointPtr::new(vec![1i64, 2])).unwrap_err();
    assert_eq!(err.kind(), ErrorKind::InvalidArgument);
}

#[test]
fn hundred_points_ranked_by_descending_dot_product() {
    // 100 points, 8 dimensions, dot-product distance, k = 5: exactly 5
    // ids, ranked by descending dot product with the query
    let mut ds: DenseDataset<i64> = DenseDataset::with_dimensionality(8);
    for i in 0..100i64 {
        let row = [i, 2 * (i % 13), i % 7, 1, 0, (i * 3) % 11, i % 2, 5 - (i % 5)];
        ds.append(&row, "").unwrap();
    }
    let query = DatapointPtr::new(vec![3i64, 1, 2, 4, 5, 1, 0, 2]);
    let dots: Vec<i64> = (0..100)
        .map(|i| {
            let row = ds.row(i);
            (0..8).map(|c| row[c] * query.values()[c]).sum()
        })
        .collect();
    let r = ScannRetriever::new(ds, DistanceMeasure::DotProductDistance, 5);
    let res = r.search(&query).unwrap();
    assert_eq!(res.len(), 5);
    for w in res.windows(2) {
        assert!(dots[w[0].0] >= dots[w[1].0]);
    }
    let best = *dots.iter().max().unwrap();
    assert_eq!(dots[res[0].0], best);
}

#[test]
fn retrieve_chunks_windows_without_overlap() {
    let ds = line_dataset(6, 2);
    let r = ScannRetriever::new(ds, DistanceMeasure::SquaredL2Distance, 4);
    // seven tokens in chunks of two: three chunks, the trailing token dropped
    let out = r.retrieve_chunks(&[1, 2, 3, 4, 5, 6, 7], 2).unwrap();
    assert_eq!(out.len(), 3);
    for chunk in &out {
        assert_eq!(chunk.len(), 4);
        for neighbor in chunk {
            assert_eq!(neighbor.len(), 2);
        }
    }
}

#[test]
fn retrieve_chunks_rejects_mismatched_chunk_size() {
    let ds = line_dataset(6, 2);
    let r = ScannRetriever::new(ds, DistanceMeasure::SquaredL2Distance, 2);
    assert_eq!(
        r.retrieve_chunks(&[1, 2, 3], 3).unwrap_err().kind(),
        ErrorKind::InvalidArgument
    );
    assert_eq!(
        r.retrieve_chunks(&[1, 2, 3], 0).unwrap_err().kind(),
        ErrorKind::InvalidArgument
    );
}

#[test]
fn partitioned_search_returns_sorted_leaf_candidates() {
    let mut ds: DenseDataset<i64> = DenseDataset::with_dimensionality(2);
    for i in 0..12i64 {
        ds.append(&[i % 4, 50 * (i % 2)], "").unwrap();
    }
    let mut o = KMeansTreeTrainingOptions::new();
    o.max_leaf_size = 6;
    o.max_iterations = 8;
    o.seed = 3;
    let tree = train(&ds, &DistanceMeasure::SquaredL2Distance, &o).unwrap();
    let r = ScannRetriever::new(ds, DistanceMeasure::SquaredL2Distance, 4);
    let query = DatapointPtr::new(vec![1i64, 49]);
    let res = r.search_with_partitioner(&tree, &query, &query).unwrap();
    assert!(res.len() <= 4);
    assert!(!res.is_empty());
    for w in res.windows(2) {
        assert!(w[0].1 < w[1].1 || (w[0].1 == w[1].1 && w[0].0 < w[1].0));
    }
    for &(id, _) in &res {
        assert!(id < 12);
    }
}

#[test]
fn cosine_search_stays_in_range() {
    let mut ds: DenseDataset<i64> = DenseDataset::with_dimensionality(2);
    ds.append(&[1, 0], "").unwrap();
    ds.append(&[0, 1], "").unwrap();
    ds.append(&[-1, 0], "").unwrap();
    let r = ScannRetriever::new(ds, DistanceMeasure::CosineDistance, 3);
    let res = r.search(&DatapointPtr::new(vec![1, 0])).unwrap();
    assert_eq!(res[0], (0, 0));
    assert_eq!(res[1].1, SCALE as i128);
    assert_eq!(res[2].1, 2 * SCALE as i128);
}

#[test]
fn partitioned_search_sees_spilled_points() {
    let mut ds: DenseDataset<i64> = DenseDataset::with_dimensionality(2);
    for i in 0..10i64 {
        ds.append(&[i, 20 * (i % 2)], "").unwrap();
    }
    let mut o = KMeansTreeTrainingOptions::new();
    o.max_leaf_size = 5;
    o.max_iterations = 6;
    o.seed = 11;
    o.learned_spilling_type = scann::proto::SpillingType::FixedNumberOfCenters;
    o.max_spill_centers = 1;
    o.per_node_spilling_factor = 50 * SCALE;
    let tree = train(&ds, &DistanceMeasure::SquaredL2Distance, &o).unwrap();
    let r = ScannRetriever::new(ds, DistanceMeasure::SquaredL2Distance, 3);
    let query = DatapointPtr::new(vec![5i64, 10]);
    let res = r.search_with_partitioner(&tree, &query, &query).unwrap();
    assert!(!res.is_empty() && res.len() <= 3);
    for w in res.windows(2) {
        assert!(w[0].1 < w[1].1 || (w[0].1 == w[1].1 && w[0].0 < w[1].0));
    }
}

#[test]
fn expanded_search_reaches_across_leaves() {
    let mut ds: DenseDataset<i64> = DenseDataset::with_dimensionality(2);
    for i in 0..12i64 {
        ds.append(&[i % 4, 50 * (i % 2)], "").unwrap();
    }
    let mut o = KMeansTreeTrainingOptions::new();
    o.max_leaf_size = 6;
    o.max_iterations = 8;
    o.seed = 3;
    let tree = train(&ds, &DistanceMeasure::SquaredL2Distance, &o).unwrap();
    let r = ScannRetriever::new(ds, DistanceMeasure::SquaredL2Distance, 12);
    let query = DatapointPtr::new(vec![1i64, 25]);
    // with every leaf expanded the search covers the whole dataset
    let wide = r
        .search_with_partitioner_expanded(&tree, &query, &query, 16)
        .unwrap();
    assert_eq!(wide.len(), 12);
    for w in wide.windows(2) {
        assert!(w[0].1 < w[1].1 || (w[0].1 == w[1].1 && w[0].0 < w[1].0));
    }
    // a single leaf covers at most its own points
    let narrow = r
        .search_with_partitioner_expanded(&tree, &query, &query, 1)
        .unwrap();
    assert!(narrow.len() <= wide.len());
}

//! Distance measures: exact values, self-distances, ranges, and the
//! name registry.

use scann::distance::abs_dot_product_distance;
use scann::distance::binary_cosine_distance;
use scann::distance::binary_dot_product_distance;
use scann::distance::binary_hamming_distance;
use scann::distance::binary_jaccard_distance;
use scann::distance::cosine_distance;
use scann::distance::dot_product;
use scann::distance::dot_product_distance;
use scann::distance::general_hamming_distance;
use scann::distance::general_jaccard_distance;
use scann::distance::l1_distance;
use scann::distance::l2_distance;
use scann::distance::limited_inner_product_distance;
use scann::distance::negated_squared_l2_distance;
use scann::distance::nonzero_intersect_distance;
use scann::distance::squared_l2_distance;
use scann::distance::SCALE;
use scann::get_distance_measure;
use scann::get_distance_measure_by_name;
use scann::proto::DistanceMeasureConfig;
use scann::DatapointPtr;
use scann::DistanceMeasure;
use scann::ErrorKind;

const S: i128 = SCALE as i128;

#[test]
fn dot_product_exact() {
    let a = vec![1i64, 2, 3];
    let b = vec![4i64, -5, 6];
    let pa = DatapointPtr::new(a);
    let pb = DatapointPtr::new(b);
    assert_eq!(dot_product(&pa, &pb), 4 - 10 + 18);
}

#[test]
fn dot_is_symmetric() {
    let a = vec![3i64, -7, 11];
    let b = vec![-2i64, 5, 13];
    let pa = DatapointPtr::new(a);
    let pb = DatapointPtr::new(b);
    assert_eq!(dot_product(&pa, &pb), dot_product(&pb, &pa));
}

#[test]
fn self_distances_are_zero() {
    let a = vec![5i64, -3, 7, 0];
    assert_eq!(l1_distance(&a, &a), 0);
    assert_eq!(l2_distance(&a, &a), 0);
    assert_eq!(squared_l2_distance(&a, &a), 0);
    assert_eq!(cosine_distance(&a, &a), 0);
    assert_eq!(general_hamming_distance(&a, &a), 0);
    assert_eq!(binary_hamming_distance(&a, &a), 0);
}

#[test]
fn l1_and_squared_l2_exact() {
    let a = vec![1i64, 2, 3];
    let b = vec![4i64, 0, 3];
    assert_eq!(l1_distance(&a, &b), 3 + 2 + 0);
    assert_eq!(squared_l2_distance(&a, &b), 9 + 4 + 0);
    assert_eq!(negated_squared_l2_distance(&a, &b), -13);
}

#[test]
fn l2_exact_on_perfect_square() {
    let a = vec![0i64, 0];
    let b = vec![3i64, 4];
    // squared distance 25: the fixed-point L2 value is exactly 5 * SCALE
    assert_eq!(l2_distance(&a, &b), 5 * S);
}

#[test]
fn dot_family_negates_similarity() {
    let a = vec![2i64, 1];
    let b = vec![3i64, -1];
    assert_eq!(dot_product_distance(&a, &b), -5);
    assert_eq!(abs_dot_product_distance(&a, &b), -5);
    let c = vec![-3i64, 1];
    assert_eq!(dot_product_distance(&a, &c), 5);
    assert_eq!(abs_dot_product_distance(&a, &c), -5);
}

#[test]
fn cosine_extremes() {
    let a = vec![1i64, 0];
    let b = vec![0i64, 1];
    let c = vec![-1i64, 0];
    // orthogonal: similarity zero, distance one
    assert_eq!(cosine_distance(&a, &b), S);
    // opposite: similarity minus one, distance two
    assert_eq!(cosine_distance(&a, &c), 2 * S);
    // a zero vector takes the maximum distance of one
    let z = vec![0i64, 0];
    assert_eq!(cosine_distance(&a, &z), S);
}

#[test]
fn cosine_stays_in_range() {
    let vectors = [
        vec![1i64, 2, 3],
        vec![-5i64, 0, 2],
        vec![0i64, 0, 0],
        vec![7i64, -7, 7],
    ];
    for a in &vectors {
        for b in &vectors {
            let d = cosine_distance(a, b);
            assert!(0 <= d && d <= 2 * S);
        }
    }
}

#[test]
fn binary_measures_exact() {
    let a = vec![1i64, 0, 5, 0];
    let b = vec![2i64, 0, 0, 3];
    assert_eq!(binary_dot_product_distance(&a, &b), -1);
    assert_eq!(nonzero_intersect_distance(&a, &b), -1);
    assert_eq!(binary_hamming_distance(&a, &b), 2);
    // intersection 1, union 3
    assert_eq!(binary_jaccard_distance(&a, &b), 2 * S / 3);
}

#[test]
fn binary_cosine_identical_patterns() {
    let a = vec![1i64, 0, 2];
    let b = vec![5i64, 0, 7];
    assert_eq!(binary_cosine_distance(&a, &b), 0);
}

#[test]
fn general_jaccard_exact() {
    let a = vec![1i64, 2];
    let b = vec![2i64, 1];
    // min sum 2, max sum 4: distance one half
    assert_eq!(general_jaccard_distance(&a, &b), S / 2);
    assert_eq!(general_jaccard_distance(&a, &a), 0);
}

#[test]
fn general_hamming_counts_differences() {
    let a = vec![1i64, 2, 3, 4];
    let b = vec![1i64, 0, 3, 5];
    assert_eq!(general_hamming_distance(&a, &b), 2);
}

#[test]
fn limited_inner_product_exact() {
    let a = vec![1i64, 0];
    assert_eq!(limited_inner_product_distance(&a, &a), -S);
    let z = vec![0i64, 0];
    assert_eq!(limited_inner_product_distance(&a, &z), 0);
}

#[test]
fn registry_resolves_every_name() {
    let names = [
        "DotProductDistance",
        "BinaryDotProductDistance",
        "AbsDotProductDistance",
        "L2Distance",
        "SquaredL2Distance",
        "NegatedSquaredL2Distance",
        "L1Distance",
        "CosineDistance",
        "BinaryCosineDistance",
        "GeneralJaccardDistance",
        "BinaryJaccardDistance",
        "LimitedInnerProductDistance",
        "GeneralHammingDistance",
        "BinaryHammingDistance",
        "NonzeroIntersectDistance",
    ];
    for name in names {
        assert!(get_distance_measure_by_name(name).is_ok(), "{name}");
    }
    assert_eq!(
        get_distance_measure_by_name("CosineDistance").unwrap(),
        DistanceMeasure::CosineDistance
    );
}

#[test]
fn registry_rejects_unknown_and_empty_names() {
    let err = get_distance_measure_by_name("NoSuchDistance").unwrap_err();
    assert_eq!(err.kind(), ErrorKind::InvalidArgument);
    let err = get_distance_measure_by_name("").unwrap_err();
    assert_eq!(err.kind(), ErrorKind::InvalidArgument);
    let config = DistanceMeasureConfig::new(String::new());
    let err = get_distance_measure(&config).unwrap_err();
    assert_eq!(err.kind(), ErrorKind::InvalidArgument);
}

#[test]
fn registry_via_config() {
    let config = DistanceMeasureConfig::new(String::from("L1Distance"));
    assert_eq!(get_distance_measure(&config).unwrap(), DistanceMeasure::L1Distance);
}

#[test]
fn compute_distance_rejects_length_mismatch() {
    let a = DatapointPtr::new(vec![1i64, 2]);
    let b = DatapointPtr::new(vec![1i64, 2, 3]);
    let err = DistanceMeasure::L1Distance.compute_distance(&a, &b).unwrap_err();
    assert_eq!(err.kind(), ErrorKind::InvalidArgument);
}

#[test]
fn compute_distance_dispatches() {
    let a = DatapointPtr::new(vec![1i64, 2, 3]);
    let b = DatapointPtr::new(vec![4i64, 0, 3]);
    assert_eq!(DistanceMeasure::L1Distance.compute_distance(&a, &b).unwrap(), 5);
    assert_eq!(DistanceMeasure::SquaredL2Distance.compute_distance(&a, &b).unwrap(), 13);
    assert_eq!(DistanceMeasure::DotProductDistance.compute_distance(&a, &b).unwrap(), -13);
}

//! The dense store: appends, dimensionality, and views.

use scann::DatapointPtr;
use scann::DenseDataset;
use scann::ErrorKind;

#[test]
fn append_accepts_matching_dimensionality() {
    let mut ds: DenseDataset<i64> = DenseDataset::with_dimensionality(3);
    ds.append(&[1, 2, 3], "a").unwrap();
    ds.append(&[4, 5, 6], "b").unwrap();
    assert_eq!(ds.size(), 2);
    assert_eq!(ds.dimensionality(), 3);
    assert_eq!(ds.row(1).as_slice(), &[4, 5, 6]);
}

#[test]
fn append_rejects_wrong_dimensionality() {
    let mut ds: DenseDataset<i64> = DenseDataset::with_dimensionality(4);
    let err = ds.append(&[1, 2, 3], "short").unwrap_err();
    assert_eq!(err.kind(), ErrorKind::InvalidArgument);
    assert_eq!(ds.size(), 0);
}

#[test]
fn new_wraps_rows() {
    let ds = DenseDataset::new(vec![vec![1i64, 2], vec![3, 4]], 2);
    assert_eq!(ds.size(), 2);
    assert_eq!(ds.dimensionality(), 2);
}

#[test]
fn set_dimensionality_redeclares() {
    let mut ds: DenseDataset<i64> = DenseDataset::with_dimensionality(2);
    ds.set_dimensionality(5);
    assert_eq!(ds.dimensionality(), 5);
}

#[test]
fn reserve_keeps_contents() {
    let mut ds: DenseDataset<i64> = DenseDataset::with_dimensionality(1);
    ds.append(&[9], "x").unwrap();
    ds.reserve(100);
    assert_eq!(ds.size(), 1);
    assert_eq!(ds.row(0).as_slice(), &[9]);
}

#[test]
fn datapoint_ptr_views_components() {
    let p = DatapointPtr::new(vec![7i64, 8, 9]);
    assert_eq!(p.values(), &[7, 8, 9]);
}

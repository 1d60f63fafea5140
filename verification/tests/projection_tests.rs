//! Projection: validation, the exact linear map, serialization round
//! trips, and the orthonormal random basis.

use scann::distance::SCALE;
use scann::projection::retained_components;
use scann::DatapointPtr;
use scann::DenseDataset;
use scann::ErrorKind;
use scann::PcaProjection;
use scann::RandomOrthogonalProjection;

fn identity_basis(dim: usize) -> DenseDataset<i64> {
    let mut rows = Vec::new();
    for i in 0..dim {
        let mut row = vec![0i64; dim];
        row[i] = 1;
        rows.push(row);
    }
    DenseDataset::new(rows, dim)
}

#[test]
fn new_validates_dimensions() {
    assert_eq!(
        PcaProjection::new(0, 1).unwrap_err().kind(),
        ErrorKind::InvalidArgument
    );
    assert_eq!(
        PcaProjection::new(4, 0).unwrap_err().kind(),
        ErrorKind::InvalidArgument
    );
    assert_eq!(
        PcaProjection::new(3, 5).unwrap_err().kind(),
        ErrorKind::InvalidArgument
    );
    assert!(PcaProjection::new(5, 3).is_ok());
}

#[test]
fn project_before_fit_fails_precondition() {
    let p = PcaProjection::new(4, 2).unwrap();
    let input = DatapointPtr::new(vec![1i64, 2, 3, 4]);
    let mut out = DatapointPtr::new(Vec::new());
    let err = p.project_input(&input, &mut out).unwrap_err();
    assert_eq!(err.kind(), ErrorKind::FailedPrecondition);
}

#[test]
fn project_is_the_exact_linear_map() {
    let mut p = PcaProjection::new(3, 2).unwrap();
    let basis = DenseDataset::new(vec![vec![1i64, 0, 1], vec![0, 2, 0]], 3);
    p.create_from_eigenvectors(basis).unwrap();
    let input = DatapointPtr::new(vec![5i64, -3, 7]);
    let mut out = DatapointPtr::new(Vec::new());
    p.project_input(&input, &mut out).unwrap();
    assert_eq!(out.values(), &[12, -6]);
}

#[test]
fn projected_length_is_projected_dims() {
    let dim = 6;
    let mut p = PcaProjection::new(dim as i32, 3).unwrap();
    p.create_from_eigenvectors(identity_basis(3_usize.min(dim))).unwrap_err();
    // a 3x3 identity does not fit a 6-dimensional input; install a 3x6 basis
    let basis = DenseDataset::new(
        vec![vec![1i64, 0, 0, 0, 0, 0], vec![0, 1, 0, 0, 0, 0], vec![0, 0, 1, 0, 0, 0]],
        6,
    );
    p.create_from_eigenvectors(basis).unwrap();
    let input = DatapointPtr::new(vec![9i64, 8, 7, 6, 5, 4]);
    let mut out = DatapointPtr::new(Vec::new());
    p.project_input(&input, &mut out).unwrap();
    assert_eq!(out.values().len(), 3);
    assert_eq!(out.values(), &[9, 8, 7]);
}

#[test]
fn project_rejects_wrong_input_length() {
    let mut p = PcaProjection::new(2, 2).unwrap();
    p.create_from_eigenvectors(identity_basis(2)).unwrap();
    let input = DatapointPtr::new(vec![1i64, 2, 3]);
    let mut out = DatapointPtr::new(Vec::new());
    let err = p.project_input(&input, &mut out).unwrap_err();
    assert_eq!(err.kind(), ErrorKind::InvalidArgument);
}

#[test]
fn eigenvectors_redeclare_projected_dims() {
    let mut p = PcaProjection::new(4, 4).unwrap();
    let basis = DenseDataset::new(vec![vec![1i64, 0, 0, 0], vec![0, 1, 0, 0]], 4);
    p.create_from_eigenvectors(basis).unwrap();
    assert_eq!(p.projected_dims, 2);
}

#[test]
fn serialization_round_trips() {
    let mut p = PcaProjection::new(3, 2).unwrap();
    let basis = DenseDataset::new(vec![vec![1i64, 2, 3], vec![-4, 5, -6]], 3);
    p.create_from_eigenvectors(basis).unwrap();
    let serialized = p.serialize_to_proto().unwrap();
    assert_eq!(serialized.rotation_vec_size(), 2);

    let mut q = PcaProjection::new(3, 2).unwrap();
    q.create_from_serialized(&serialized).unwrap();
    let d = q.get_directions().as_ref().unwrap();
    assert_eq!(d.row(0).as_slice(), &[1, 2, 3]);
    assert_eq!(d.row(1).as_slice(), &[-4, 5, -6]);
}

#[test]
fn deserializing_an_empty_basis_fails() {
    let mut p = PcaProjection::new(3, 2).unwrap();
    let empty = scann::proto::SerializedProjection::new();
    let err = p.create_from_serialized(&empty).unwrap_err();
    assert_eq!(err.kind(), ErrorKind::InvalidArgument);
}

#[test]
fn unfit_projection_serializes_to_none() {
    let p = PcaProjection::new(3, 2).unwrap();
    assert!(p.serialize_to_proto().is_none());
}

#[test]
fn random_basis_rows_are_orthonormal() {
    let mut ortho = RandomOrthogonalProjection::new(6, 4, 12345);
    ortho.create().unwrap();
    let d = ortho.get_directions().as_ref().unwrap();
    assert_eq!(d.size(), 4);
    for r1 in 0..4 {
        for r2 in 0..4 {
            let mut dot = 0i64;
            for c in 0..6 {
                dot += d.row(r1)[c] * d.row(r2)[c];
            }
            assert_eq!(dot, if r1 == r2 { 1 } else { 0 });
        }
    }
}

#[test]
fn random_basis_rejects_too_many_rows() {
    let mut ortho = RandomOrthogonalProjection::new(2, 3, 1);
    let err = ortho.create().unwrap_err();
    assert_eq!(err.kind(), ErrorKind::InvalidArgument);
}

#[test]
fn rotation_keeps_shape_and_signed_permutation_of_rows() {
    let mut p = PcaProjection::new(3, 3).unwrap();
    p.create_from_eigenvectors(identity_basis(3)).unwrap();
    p.random_rotate_projection_matrix().unwrap();
    let d = p.get_directions().as_ref().unwrap();
    assert_eq!(d.size(), 3);
    // rotating the identity by a signed permutation leaves one-hot rows
    for r in 0..3 {
        let nonzero: Vec<i64> = d.row(r).iter().copied().filter(|&x| x != 0).collect();
        assert_eq!(nonzero.len(), 1);
        assert!(nonzero[0] == 1 || nonzero[0] == -1);
    }
}

#[test]
fn rotation_before_fit_fails_precondition() {
    let mut p = PcaProjection::new(3, 3).unwrap();
    let err = p.random_rotate_projection_matrix().unwrap_err();
    assert_eq!(err.kind(), ErrorKind::FailedPrecondition);
}

#[test]
fn center_scaled_is_exact() {
    let ds = DenseDataset::new(vec![vec![1i64, 3], vec![3, 5]], 2);
    let centered = scann::projection::center_scaled(&ds);
    assert_eq!(centered.row(0).as_slice(), &[-2, -2]);
    assert_eq!(centered.row(1).as_slice(), &[2, 2]);
}

#[test]
fn column_gram_is_exact() {
    let ds = DenseDataset::new(vec![vec![1i64, 3], vec![3, 5]], 2);
    let gram = scann::projection::column_gram(&ds);
    assert_eq!(gram[0], vec![10, 18]);
    assert_eq!(gram[1], vec![18, 34]);
    let centered = scann::projection::center_scaled(&ds);
    let cgram = scann::projection::column_gram(&centered);
    assert_eq!(cgram[0], vec![8, 8]);
    assert_eq!(cgram[1], vec![8, 8]);
}

#[test]
fn retained_components_covers_and_truncates() {
    // equal eigenvalues: half the variance needs half the components
    let values = vec![SCALE, SCALE, SCALE, SCALE];
    assert_eq!(retained_components(&values, SCALE / 2, 0), 2);
    // full significance keeps everything
    assert_eq!(retained_components(&values, SCALE, 0), 4);
    // a sharp drop truncates before significance is covered
    let skewed = vec![SCALE, 1, 1, 1];
    assert_eq!(retained_components(&skewed, SCALE, SCALE / 2), 1);
    // at least one component is always kept
    assert_eq!(retained_components(&vec![0i64, 0], 0, SCALE), 1);
}

#[test]
fn random_basis_is_a_function_of_shape_and_seed() {
    let mut a = RandomOrthogonalProjection::new(7, 4, 99);
    a.create().unwrap();
    let mut b = RandomOrthogonalProjection::new(7, 4, 99);
    b.create().unwrap();
    let da = a.get_directions().as_ref().unwrap();
    let db = b.get_directions().as_ref().unwrap();
    for r in 0..4 {
        assert_eq!(da.row(r), db.row(r));
    }
    let mut c = RandomOrthogonalProjection::new(7, 4, 100);
    c.create().unwrap();
    let dc = c.get_directions().as_ref().unwrap();
    let same = (0..4).all(|r| da.row(r) == dc.row(r));
    assert!(!same, "different seeds should give different bases here");
}

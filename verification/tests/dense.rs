//! Dense column-major matrices: copies, adjoints, column orders and gauges.

use num_complex::Complex64;

use tenet_matrixalgebra::dense::{
    adjoint_col_major, adjoint_col_major_into, copy_col_major_strided, reorder_columns_in_place,
    write_range,
};
use tenet_matrixalgebra::dense_output::{
    validate_dense_shape, validate_output_count, validate_owned_output, DenseOperation,
};
use tenet_matrixalgebra::eigen::{
    descending_order, gather_columns, gather_values, validate_hermitian_contents,
    validate_hermitian_matrix_shape,
};
use tenet_matrixalgebra::error::{DenseBackend, DenseError, OperationError};
use tenet_matrixalgebra::factor::{
    append_owned_factor, concat_owned_factor_regions, FactorPlacement,
};
use tenet_matrixalgebra::full::{
    augment_with_identity, completed_basis, gather_from_workspace, leading_columns,
    orient_full_svd,
};
use tenet_matrixalgebra::gauge::{
    apply_bond_phases, apply_column_phases, apply_row_phases, scale_col, scale_row,
    BondPhase,
};
use tenet_matrixalgebra::layout::{
    copy_mapped_to_strided_diagonal, scatter_identity_matrix_block, scatter_matrix_block,
    FactorSide,
};
use tenet_matrixalgebra::phases::{
    eigenvector_gauge, positive_diagonal_gauge, svd_compact_adjoint_gauge, svd_compact_gauge,
    svd_full_gauge,
};
use tenet_matrixalgebra::sector_solve::max_order;
use tenet_matrixalgebra::solve_routes::identity_workspace;

fn conj(value: Complex64) -> Complex64 {
    value.conj()
}

#[test]
fn strided_copy_changes_the_leading_dimension() {
    let source = [1, 2, 0, 3, 4, 0];
    let mut target = [9; 8];
    copy_col_major_strided(&source, 2, 2, 3, &mut target, 4);
    assert_eq!(target, [1, 2, 9, 9, 3, 4, 9, 9]);
}

#[test]
fn adjoint_conjugates_and_transposes() {
    let i = Complex64::new(0.0, 1.0);
    let one = Complex64::new(1.0, 0.0);
    // 2 x 3, columns (1, i), (2, 2i), (3, 3i)
    let data = [one, i, one * 2.0, i * 2.0, one * 3.0, i * 3.0];
    let adjoint = adjoint_col_major(&data, 2, 3, &conj);
    assert_eq!(
        adjoint,
        [one, one * 2.0, one * 3.0, -i, -i * 2.0, -i * 3.0]
    );
    // An adjoint undoes itself.
    assert_eq!(adjoint_col_major(&adjoint, 3, 2, &conj), data);
    let mut target = [Complex64::new(0.0, 0.0); 6];
    adjoint_col_major_into(&data, 2, 3, &mut target, &conj);
    assert_eq!(target.to_vec(), adjoint);
}

#[test]
fn columns_are_reordered_in_place() {
    let mut vectors = [1, 2, 3, 4, 5, 6, 7, 8, 9, 77];
    let mut visited = [false; 3];
    let mut scratch = [0; 3];
    reorder_columns_in_place(&mut vectors, 3, &[2, 0, 1], &mut visited, &mut scratch);
    assert_eq!(vectors, [7, 8, 9, 1, 2, 3, 4, 5, 6, 77]);
    assert_eq!(
        gather_columns(&[1, 2, 3, 4, 5, 6, 7, 8, 9], 3, &[2, 0, 1]),
        [7, 8, 9, 1, 2, 3, 4, 5, 6]
    );
}

#[test]
fn descending_order_keeps_equal_keys_in_place() {
    let keys = [3u64, 9, 3, 0, 9];
    let order = descending_order(&keys);
    assert_eq!(order, [1, 4, 0, 2, 3]);
    assert_eq!(gather_values(&keys, &order), [9, 9, 3, 3, 0]);
    assert!(descending_order(&[]).is_empty());
}

fn sign(value: f64) -> Option<f64> {
    if value < 0.0 {
        Some(-1.0)
    } else {
        None
    }
}

fn size(value: f64) -> u64 {
    value.abs().to_bits()
}

fn same(value: f64) -> f64 {
    value
}

fn times(value: f64, factor: f64) -> f64 {
    value * factor
}

#[test]
fn the_largest_entry_of_a_column_gives_its_phase() {
    // The second entry is larger, so both factors change sign.
    let (mut u, mut vh) = ([1.0, -2.0, 5.0, 1.0], [3.0, 7.0, 4.0, 8.0]);
    svd_compact_gauge(&mut u, 2, 2, &mut vh, 2, 2, 2, &size, &sign, &same, &times);
    assert_eq!(u, [-1.0, 2.0, 5.0, 1.0]);
    assert_eq!(vh, [-3.0, 7.0, -4.0, 8.0]);
    // The first of equal magnitudes decides.
    let (mut u, mut vh) = ([-2.0, 2.0], [3.0]);
    svd_compact_gauge(&mut u, 2, 2, &mut vh, 1, 1, 1, &size, &sign, &same, &times);
    assert_eq!((u, vh), ([2.0, -2.0], [-3.0]));
    let (mut u, mut vh) = ([1.0, -2.0], [3.0, -4.0]);
    svd_compact_adjoint_gauge(&mut u, 2, 2, &mut vh, 1, 2, 1, &size, &sign, &same, &times);
    assert_eq!((u, vh), ([-1.0, 2.0], [-3.0, 4.0]));
    let mut vectors = [0.0, 0.0, -3.0, 1.0];
    eigenvector_gauge(&mut vectors, 2, 2, 2, &size, &sign, &same, &times);
    assert_eq!(vectors, [0.0, 0.0, 3.0, -1.0]);
}

#[test]
fn square_factors_are_fixed_beyond_their_partners() {
    let (mut u, mut vh) = ([-2.0, 1.0, 1.0, -5.0], [4.0]);
    svd_full_gauge(&mut u, 2, 2, &mut vh, 1, 1, &size, &sign, &same, &times);
    assert_eq!((u, vh), ([2.0, -1.0, -1.0, 5.0], [-4.0]));
    let (mut u, mut vh) = ([-1.0], [4.0, -6.0, 2.0, 5.0]);
    svd_full_gauge(&mut u, 1, 1, &mut vh, 2, 2, &size, &sign, &same, &times);
    assert_eq!((u, vh), ([1.0], [-4.0, 6.0, -2.0, -5.0]));
}

#[test]
fn the_diagonal_of_r_gives_its_phases() {
    let c = Complex64::new;
    let phase = |value: Complex64| {
        if value.norm() == 0.0 {
            None
        } else {
            Some(value / value.norm())
        }
    };
    let conjugate = |value: Complex64| value.conj();
    let multiply = |value: Complex64, factor: Complex64| value * factor;
    let mut q = [c(1.0, 0.0), c(0.0, 0.0), c(0.0, 0.0), c(1.0, 0.0)];
    let mut r = [c(-2.0, 0.0), c(0.0, 0.0), c(5.0, 0.0), c(0.0, 3.0), c(1.0, 1.0), c(2.0, 0.0)];
    positive_diagonal_gauge(&mut q, 2, &mut r, 2, 3, &phase, &conjugate, &multiply);
    assert_eq!(q, [c(-1.0, 0.0), c(0.0, 0.0), c(0.0, 0.0), c(0.0, 1.0)]);
    assert_eq!(
        r,
        [c(2.0, 0.0), c(0.0, 0.0), c(-5.0, 0.0), c(3.0, 0.0), c(-1.0, -1.0), c(0.0, -2.0)]
    );
    // A zero keeps both factors as they are.
    let (mut q, mut r) = ([c(0.0, 1.0)], [c(0.0, 0.0), c(0.0, 4.0)]);
    positive_diagonal_gauge(&mut q, 1, &mut r, 1, 2, &phase, &conjugate, &multiply);
    assert_eq!((q, r), ([c(0.0, 1.0)], [c(0.0, 0.0), c(0.0, 4.0)]));
}

#[test]
fn rows_and_columns_are_scaled() {
    let multiply = |a: i64, b: i64| a * b;
    let mut data = [1, 2, 3, 4, 5, 6];
    scale_col(&mut data, 2, 3, 1, 10, &multiply);
    assert_eq!(data, [1, 2, 3, 40, 50, 6]);
    scale_row(&mut data, 2, 3, 2, -1, &multiply);
    assert_eq!(data, [1, 2, -3, 40, 50, -6]);
}

#[test]
fn gauge_keeps_the_product() {
    let multiply = |a: Complex64, b: Complex64| a * b;
    let c = Complex64::new;
    let mut left = [c(1.0, 1.0), c(2.0, 0.0), c(0.0, 3.0), c(4.0, -1.0)];
    let mut right = [c(5.0, 0.0), c(0.0, 1.0), c(1.0, 1.0), c(2.0, 2.0)];
    let product = |left: &[Complex64], right: &[Complex64]| {
        (0..4)
            .map(|k| {
                let (r, col) = (k % 2, k / 2);
                left[r] * right[2 * col] + left[2 + r] * right[2 * col + 1]
            })
            .collect::<Vec<_>>()
    };
    let before = product(&left, &right);
    let phase = BondPhase {
        column: c(0.0, 1.0),
        row: c(0.0, -1.0),
    };
    apply_bond_phases(
        &mut left,
        2,
        2,
        &mut right,
        2,
        2,
        &[Some(phase), None],
        &multiply,
    );
    assert_eq!(left[0], c(-1.0, 1.0));
    assert_eq!(right[0], c(0.0, -5.0));
    assert_eq!((left[2], right[1]), (c(0.0, 3.0), c(0.0, 1.0)));
    assert_eq!(product(&left, &right), before);
}

#[test]
fn phases_start_at_the_given_column_or_row() {
    let multiply = |a: i64, b: i64| a * b;
    let mut data = [1, 1, 1, 1];
    apply_column_phases(&mut data, 2, 2, &[Some(5), Some(7)], 1, &multiply);
    assert_eq!(data, [1, 1, 7, 7]);
    let mut data = [1, 1, 1, 1];
    apply_row_phases(&mut data, 2, 2, &[Some(5), None], 0, &multiply);
    assert_eq!(data, [5, 1, 5, 1]);
}

#[test]
fn identity_completion_of_thin_bases() {
    assert_eq!(
        augment_with_identity(&[7, 8], 2, 1, 0, 1),
        [7, 8, 1, 0, 0, 1]
    );
    assert_eq!(completed_basis(&[7, 8], &[1, 2, 3, 4], 2, 1), [7, 8, 3, 4]);
    assert_eq!(leading_columns(&[1, 2, 3, 4], 2, 1), [1, 2]);
    assert_eq!(
        gather_from_workspace(&[1, 2, 9, 3, 4, 9], 2, 2, 3, 0),
        [1, 2, 3, 4]
    );
    assert_eq!(identity_workspace(2, 0, 1).unwrap(), [1, 0, 0, 1]);
    assert_eq!(
        identity_workspace(usize::MAX, 0, 1),
        Err(OperationError::ElementCountOverflow)
    );
    assert_eq!(max_order(&[2, 5, 3]), 5);
    assert_eq!(max_order(&[]), 0);
}

#[test]
fn adjoint_placement_swaps_the_outer_factors() {
    let i = Complex64::new(0.0, 1.0);
    let one = Complex64::new(1.0, 0.0);
    let u = vec![i];
    let vh = vec![one, i, i, one];
    let direct = orient_full_svd(
        u.clone(),
        1,
        vh.clone(),
        2,
        vec![3.0],
        FactorPlacement::Direct,
        &conj,
    );
    assert_eq!((direct.left, direct.left_rows), (u.clone(), 1));
    assert_eq!((direct.right, direct.right_leading), (vh.clone(), 2));
    let swapped = orient_full_svd(u, 1, vh, 2, vec![3.0], FactorPlacement::Adjoint, &conj);
    assert_eq!((swapped.left, swapped.left_rows), (vec![one, -i, -i, one], 2));
    assert_eq!((swapped.right, swapped.right_leading), (vec![-i], 1));
    assert_eq!(swapped.singular_values, [3.0]);
}

#[test]
fn ranges_are_written_and_factors_joined() {
    let mut data = [0; 4];
    write_range(&mut data, 1, &[7, 8]);
    assert_eq!(data, [0, 7, 8, 0]);
    let mut output = None;
    assert_eq!(append_owned_factor(&mut output, vec![1, 2], 3), 0);
    assert_eq!(append_owned_factor(&mut output, vec![3], 3), 1);
    assert_eq!(output, Some(vec![1, 2, 3]));
    assert_eq!(
        concat_owned_factor_regions(vec![None, Some(vec![4]), Some(vec![5, 6])], 3),
        [4, 5, 6]
    );
}

#[test]
fn blocks_are_scattered_from_both_layouts() {
    // Left: the bond is the last axis of the block, the factor has 3 rows.
    let mut data = [0; 4];
    scatter_matrix_block(
        &mut data,
        &[2, 2],
        &[1, 2],
        0,
        1,
        FactorSide::Left,
        &[1, 2, 3, 4, 5, 6],
        3,
        1,
    );
    assert_eq!(data, [2, 3, 5, 6]);
    // Right: the bond is the first axis, the factor has 2 rows.
    let mut data = [0; 4];
    scatter_matrix_block(
        &mut data,
        &[2, 2],
        &[1, 2],
        0,
        0,
        FactorSide::Right,
        &[1, 2, 3, 4, 5, 6],
        2,
        1,
    );
    assert_eq!(data, [3, 4, 5, 6]);
}

#[test]
fn identity_blocks_report_their_dimension() {
    let mut data = [0; 4];
    assert_eq!(
        scatter_identity_matrix_block(&mut data, &[2, 2], &[1, 2], 0, 1, 2, 0, 2, 1),
        Ok(())
    );
    assert_eq!(data, [1, 0, 0, 1]);
    assert_eq!(
        scatter_identity_matrix_block(&mut data, &[2, 2], &[1, 2], 0, 1, 3, 0, 2, 1),
        Err(OperationError::ElementCountMismatch {
            expected: 3,
            actual: 2
        })
    );
    assert_eq!(
        scatter_identity_matrix_block(&mut data, &[2, 2], &[1, 2], 0, 2, 3, 0, 2, 1),
        Err(OperationError::ElementCountMismatch {
            expected: 3,
            actual: 0
        })
    );
}

#[test]
fn diagonals_are_mapped_and_strided() {
    let mut data = [0.0; 7];
    copy_mapped_to_strided_diagonal(&mut data, 1, 2, &[1i32, 2, 3], &|value: i32| {
        f64::from(value) / 2.0
    });
    assert_eq!(data, [0.0, 0.5, 0.0, 1.0, 0.0, 1.5, 0.0]);
}

#[test]
fn dense_outputs_are_checked() {
    assert_eq!(validate_dense_shape(&[2, 3], &[2, 3]), Ok(()));
    assert_eq!(
        validate_dense_shape(&[3, 2], &[2, 3]),
        Err(OperationError::ShapeMismatch {
            dst: vec![2, 3],
            src: vec![3, 2]
        })
    );
    let report = |op: &'static str, message: &str| {
        Err(OperationError::Dense(DenseError::Backend {
            backend: DenseBackend::Tenferro,
            op,
            message: message.to_string(),
        }))
    };
    assert_eq!(validate_output_count(DenseOperation::Svd, 3), Ok(()));
    assert_eq!(validate_output_count(DenseOperation::Eig, 2), Ok(()));
    assert_eq!(
        validate_output_count(DenseOperation::Qr, 3),
        report("qr_into", "dense QR must return exactly (Q, R)")
    );
    assert_eq!(
        validate_output_count(DenseOperation::Svd, 2),
        report("svd_into", "dense SVD must return exactly (U, S, Vt)")
    );
    assert_eq!(
        validate_output_count(DenseOperation::SvdFull, 2),
        report("svd_full_owned", "dense full SVD must return exactly (U, S, Vh)")
    );
    assert_eq!(
        validate_output_count(DenseOperation::Eigh, 1),
        report("eigh_into", "dense EIGH must return exactly (values, vectors)")
    );
    assert_eq!(
        validate_output_count(DenseOperation::Eig, 1),
        Err(OperationError::UnsupportedTensorContractScope {
            message: "dense eig must return exactly (values, vectors)"
        })
    );
    assert_eq!(validate_owned_output("qr", &[2, 2], &[2, 2], 4), Ok(()));
    let (shape, expected) = ([2usize, 10], [1205usize]);
    assert_eq!(
        validate_owned_output("qr", &shape, &expected, 4),
        report("qr", &format!("qr output shape mismatch: source {shape:?}, destination {expected:?}"))
    );
    assert_eq!(
        validate_owned_output("qr", &[], &[2, 3], 4),
        report("qr", "qr output shape mismatch: source [], destination [2, 3]")
    );
    assert_eq!(
        validate_owned_output("qr", &[2, 2], &[2, 2], 50),
        report("qr", "qr output storage length mismatch: source 50, expected 4")
    );
    assert_eq!(
        validate_owned_output("qr", &[2, 2], &[2, 2], usize::MAX),
        report(
            "qr",
            &format!("qr output storage length mismatch: source {}, expected 4", usize::MAX)
        )
    );
    assert_eq!(
        validate_owned_output("qr", &[usize::MAX, 2], &[usize::MAX, 2], 5),
        Err(OperationError::Dense(DenseError::ElementCountOverflow))
    );
}

#[test]
fn hermitian_matrices_are_square_and_hermitian() {
    assert_eq!(validate_hermitian_matrix_shape(4, 2, 2), Ok(()));
    assert_eq!(
        validate_hermitian_matrix_shape(6, 2, 3),
        Err(OperationError::UnsupportedTensorContractScope {
            message: "eigh requires square coupled-sector matrices"
        })
    );
    assert_eq!(
        validate_hermitian_contents(&[true, false]),
        Err(OperationError::InvalidArgument {
            message: "eigh requires Hermitian coupled-sector blocks"
        })
    );
    assert_eq!(validate_hermitian_contents(&[true, true]), Ok(()));
}

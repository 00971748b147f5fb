//! Eigendecompositions, full decompositions, typed factors and block sums.

use tenet_matrixalgebra::bond::BondDimensions;
use tenet_matrixalgebra::eigen::{
    validate_hermitian_contents, validate_hermitian_matricizations, validate_hermitian_regions,
};
use tenet_matrixalgebra::eigen_full::{
    eig_full_dyn, eig_full_dyn_checked_generic, sort_eigenpairs, EigenStage,
};
use tenet_matrixalgebra::error::OperationError;
use tenet_matrixalgebra::factor::{FactorPair, SectorRank};
use tenet_matrixalgebra::full::{svd_full_dyn_checked_generic, FullSvdStage};
use tenet_matrixalgebra::geometry::{CoupledSectorRegion, SectorMatricization, TreeExtent};
use tenet_matrixalgebra::input::{
    sector_matricization_diagnostic, value_matricizations, SectorMatricizationDiagnostic,
};
use tenet_matrixalgebra::layout::FactorSide;
use tenet_matrixalgebra::matrix_functions::{
    add_terms, combine, project_hermitian_col_major, Term,
};
use tenet_matrixalgebra::pair::{scatter_sector_factors, SectorFactor};
use tenet_matrixalgebra::polar::{positive_homspace, PolarDirection};
use tenet_matrixalgebra::probe::{
    concat_compact_factor_regions, concat_compact_svd_factor_regions, reset_compact_qr_copy_probe,
    reset_compact_svd_copy_probe, CompactQrCopyProbe, CompactSvdCopyProbe,
};
use tenet_matrixalgebra::publish::build_left_right_bound_pair;
use tenet_matrixalgebra::results::{EighFullDyn, SvdCompactDyn, SvdTruncDyn};
use tenet_matrixalgebra::sector::{FusionTreeKey, FusionTreePairKey, SectorId};
use tenet_matrixalgebra::sector_solve::solve_left_jobs;
use tenet_matrixalgebra::solve_routes::SolveLeftSectorRoute;
use tenet_matrixalgebra::space::{
    BoundDynFactor, FusionProductSpace, FusionTreeHomSpace, MapSpace, SectorLeg,
};
use tenet_matrixalgebra::spectrum::SectorSpectrum;
use tenet_matrixalgebra::structure::{Block, BlockKey, BlockStructure};
use tenet_matrixalgebra::typed::typed_from_bound_factor;

fn sector(id: usize) -> SectorId {
    SectorId::new(id)
}

fn leaf(id: usize) -> FusionTreeKey {
    FusionTreeKey {
        uncoupled: vec![sector(id)],
        coupled: sector(id),
        is_dual: vec![false],
        innerlines: Vec::new(),
        vertices: Vec::new(),
    }
}

fn labelled(codomain: FusionTreeKey, domain: FusionTreeKey, shape: [usize; 2]) -> Block {
    Block {
        key: BlockKey::FusionTree(FusionTreePairKey { codomain, domain }),
        shape: shape.to_vec(),
        strides: vec![1, shape[0]],
        offset: 0,
    }
}

fn single(id: usize, rows: usize, cols: usize) -> BlockStructure {
    BlockStructure::new(vec![labelled(leaf(id), leaf(id), [rows, cols])], rows * cols).unwrap()
}

fn extent(tree: FusionTreeKey, offset: usize, dimension: usize) -> TreeExtent {
    TreeExtent { tree, offset, shape: vec![dimension] }
}

fn matrix(id: usize, rows: usize, cols: usize, data: &[i64]) -> SectorMatricization<i64> {
    SectorMatricization {
        sector: sector(id),
        rows,
        cols,
        row_trees: vec![extent(leaf(id), 0, rows)],
        col_trees: vec![extent(leaf(id), 0, cols)],
        data: data.to_vec(),
    }
}

fn region(id: usize, rows: usize, cols: usize, start: usize, end: usize) -> CoupledSectorRegion {
    CoupledSectorRegion {
        coupled: sector(id),
        rows,
        cols,
        start,
        end,
        row_trees: vec![extent(leaf(id), 0, rows)],
        col_trees: vec![extent(leaf(id), 0, cols)],
    }
}

fn scope(message: &'static str) -> OperationError {
    OperationError::UnsupportedTensorContractScope { message }
}

fn leg(ranks: &[(usize, usize)]) -> SectorLeg {
    SectorLeg::new(
        ranks.iter().map(|&(id, kept)| SectorRank { sector: sector(id), kept }).collect(),
    )
}

fn map_space(
    codomain: Vec<SectorLeg>,
    domain: Vec<SectorLeg>,
    structure: BlockStructure,
) -> MapSpace {
    let (nout, nin) = (codomain.len(), domain.len());
    MapSpace {
        rule_identity: Some(1),
        provider: 7,
        homspace: FusionTreeHomSpace {
            codomain: FusionProductSpace { legs: codomain },
            domain: FusionProductSpace { legs: domain },
        },
        nout,
        nin,
        rank: nout + nin,
        structure,
        regions: None,
    }
}

#[test]
fn eigenpairs_are_sorted_by_descending_key() {
    let stage = sort_eigenpairs(&[-1, 5, 1, -7], &(0..16).collect::<Vec<i64>>(), &[1, 5, 1, 7]);
    assert_eq!(stage.values, [-7, 5, -1, 1]);
    assert_eq!(stage.vectors, [12, 13, 14, 15, 4, 5, 6, 7, 0, 1, 2, 3, 8, 9, 10, 11]);
}

#[test]
fn eigenvectors_are_published_on_a_bond_of_their_orders() {
    let structure = single(3, 2, 2);
    let matrices = [matrix(3, 2, 2, &[0; 4])];
    let stage = EigenStage { values: vec![9, 4], vectors: vec![1i64, 2, 3, 4] };
    let expected = vec![SectorSpectrum { sector: sector(3), values: vec![9, 4] }];
    let (data, spectra) = eig_full_dyn(&structure, &matrices, vec![stage.clone()], 0, 1).unwrap();
    assert_eq!(data, [1, 2, 3, 4]);
    assert_eq!(spectra, expected);
    let (data, spectra) =
        eig_full_dyn_checked_generic(&structure, &matrices, vec![stage.clone()], 0, 1).unwrap();
    assert_eq!(data, [1, 2, 3, 4]);
    assert_eq!(spectra, expected);

    let mut other = leaf(3);
    other.vertices = vec![1];
    let foreign = BlockStructure::new(vec![labelled(other, leaf(3), [2, 2])], 4).unwrap();
    assert_eq!(
        eig_full_dyn_checked_generic(&foreign, &matrices, vec![stage], 0, 1),
        Err(scope("factor codomain tree absent from the source matricization"))
    );
}

#[test]
fn checked_full_svd_reports_the_left_factor_first() {
    let outer = single(0, 2, 2);
    let matrices = [matrix(0, 2, 2, &[0; 4])];
    let mut dimensions = BondDimensions::new();
    dimensions.insert(sector(0), 2);
    let stage = FullSvdStage {
        left: vec![1i64, 2, 3, 4],
        left_rows: 2,
        right: vec![5, 6, 7, 8],
        right_leading: 2,
        singular_values: vec![40i64, 20],
    };
    let tenth = |value: i64| value / 10;
    let svd = svd_full_dyn_checked_generic(
        &outer,
        &outer,
        &outer,
        &matrices,
        vec![stage.clone()],
        &dimensions,
        &dimensions,
        &tenth,
        0,
        1,
    )
    .unwrap();
    assert_eq!(svd.u, [1, 2, 3, 4]);
    assert_eq!(svd.s, [4, 0, 0, 2]);
    assert_eq!(svd.vh, [5, 6, 7, 8]);
    assert_eq!(
        svd.singular_values,
        [SectorSpectrum { sector: sector(0), values: vec![40, 20] }]
    );

    let mut other = leaf(0);
    other.vertices = vec![1];
    let rows = BlockStructure::new(vec![labelled(other.clone(), leaf(0), [2, 2])], 4).unwrap();
    let cols = BlockStructure::new(vec![labelled(leaf(0), other, [2, 2])], 4).unwrap();
    for (left, right, message) in [
        (&rows, &cols, "factor codomain tree absent from the source matricization"),
        (&outer, &cols, "factor domain tree absent from the source matricization"),
    ] {
        let refused = svd_full_dyn_checked_generic(
            left,
            right,
            &outer,
            &matrices,
            vec![stage.clone()],
            &dimensions,
            &dimensions,
            &tenth,
            0,
            1,
        );
        assert_eq!(refused, Err(scope(message)));
    }
}

#[test]
fn block_sums_take_terms_in_order_and_leave_the_rest() {
    let (plus, times) = (|a: i64, b: i64| a + b, |a: i64, b: i64| a * b);
    let (a, b) = ([1i64, 2, 3, 4], [10i64, 20, 30, 40]);
    let terms = [Term { coefficient: 2, matrix: &a[..] }, Term { coefficient: -1, matrix: &b[..] }];
    let mut sum = [7i64; 5];
    combine(&mut sum, &terms, 2, 100, &plus, &times);
    assert_eq!(sum, [92, 84, 76, 68, 7]);
    let mut shifted = [1i64, 1, 1, 1, 9];
    add_terms(&mut shifted, &terms, 1000, 2, &plus, &times);
    assert_eq!(shifted, [993, -15, -23, 969, 9]);
    let mut untouched: [i64; 1] = [3];
    add_terms(&mut untouched, &terms, 1000, 0, &plus, &times);
    assert_eq!(untouched, [3]);
}

#[test]
fn hermitian_parts_mirror_their_upper_triangle() {
    // A number a + b*i is written as (a, b).
    let plus = |x: (i64, i64), y: (i64, i64)| (x.0 + y.0, x.1 + y.1);
    let times = |x: (i64, i64), y: (i64, i64)| (x.0 * y.0 - x.1 * y.1, x.0 * y.1 + x.1 * y.0);
    let conjugate = |x: (i64, i64)| (x.0, -x.1);
    let mut matrix = [(2, 4), (6, 2), (4, 8), (8, 0), (1, 1)];
    project_hermitian_col_major(&mut matrix, 2, (3, 0), &plus, &times, &conjugate);
    assert_eq!(matrix, [(12, 0), (30, -18), (30, 18), (48, 0), (1, 1)]);
}

#[test]
fn typed_factors_carry_the_dimensions_of_their_legs() {
    let space = || map_space(vec![leg(&[(0, 2), (1, 5)])], vec![leg(&[(0, 3)])], single(0, 2, 3));
    let factor = || BoundDynFactor::from_bound(space(), vec![1i64; 6], 1, 1).unwrap();
    let tensor = typed_from_bound_factor::<i64, 1, 1>(factor()).unwrap();
    assert_eq!(tensor.codomain_dims(), [7]);
    assert_eq!(tensor.domain_dims(), [3]);
    assert_eq!(tensor.data(), [1; 6]);
    assert_eq!(tensor.space(), &space());
    assert_eq!(tensor.factor(), &factor());
    assert_eq!(tensor.dynamic(), factor());
    assert_eq!(
        typed_from_bound_factor::<i64, 2, 1>(factor()).unwrap_err(),
        OperationError::RankMismatch { expected: 3, actual: 2 }
    );
    let wide = map_space(
        vec![leg(&[(0, usize::MAX), (1, 1)])],
        vec![leg(&[(0, 3)])],
        single(0, 2, 3),
    );
    let wide = BoundDynFactor::from_bound(wide, vec![1i64; 6], 1, 1).unwrap();
    assert_eq!(
        typed_from_bound_factor::<i64, 1, 1>(wide).unwrap_err(),
        OperationError::ElementCountOverflow
    );
}

#[test]
fn decompositions_hand_out_their_parts() {
    let factor = |rows: usize, cols: usize| {
        let space =
            map_space(vec![leg(&[(0, rows)])], vec![leg(&[(0, cols)])], single(0, rows, cols));
        BoundDynFactor::from_bound(space, vec![rows as i64; rows * cols], 1, 1).unwrap()
    };
    let spectra = vec![SectorSpectrum { sector: sector(0), values: vec![3i64] }];
    let svd = SvdCompactDyn::new(factor(2, 1), factor(1, 1), factor(1, 3), spectra.clone());
    assert_eq!(svd.u(), &factor(2, 1));
    assert_eq!(svd.s(), &factor(1, 1));
    assert_eq!(svd.vh(), &factor(1, 3));
    assert_eq!(svd.singular_values(), spectra);
    assert_eq!(
        svd.clone().into_parts(),
        (factor(2, 1), factor(1, 1), factor(1, 3), spectra.clone())
    );
    let typed = svd.clone().typed::<1, 1>().unwrap();
    assert_eq!(typed.u.codomain_dims(), [2]);
    assert_eq!(typed.vh.domain_dims(), [3]);
    assert_eq!(
        svd.typed::<2, 1>().unwrap_err(),
        OperationError::RankMismatch { expected: 3, actual: 2 }
    );

    let cut = SvdTruncDyn::new(factor(2, 1), factor(1, 1), factor(1, 3), spectra.clone(), 5u8);
    assert_eq!(cut.error(), &5);
    assert_eq!(cut.typed::<1, 1>().unwrap().error, 5);

    let eigh = EighFullDyn::new(factor(2, 2), spectra.clone());
    assert_eq!(eigh.v(), &factor(2, 2));
    assert_eq!(eigh.eigenvalues(), spectra);
    let typed = eigh.clone().typed::<1, 1>(factor(1, 1)).unwrap();
    assert_eq!(typed.eigenvalues, spectra);
    assert_eq!(typed.d.codomain_dims(), [1]);
    assert_eq!(typed.v.codomain_dims(), [2]);
    assert_eq!(eigh.into_parts(), (factor(2, 2), spectra));
}

#[test]
fn hermitian_admission_tests_shapes_before_contents() {
    let square = matrix(0, 2, 2, &[1, 2, 2, 1]);
    let wide = matrix(1, 1, 2, &[1, 2]);
    let short = matrix(2, 2, 2, &[1]);
    assert_eq!(validate_hermitian_matricizations(&[square.clone()], &[true]), Ok(()));
    let refused = OperationError::InvalidArgument {
        message: "eigh requires Hermitian coupled-sector blocks",
    };
    assert_eq!(validate_hermitian_contents(&[true, false]), Err(refused.clone()));
    assert_eq!(
        validate_hermitian_matricizations(&[square.clone()], &[false]),
        Err(refused.clone())
    );
    assert_eq!(
        validate_hermitian_matricizations(&[square.clone(), wide], &[false, true]),
        Err(scope("eigh requires square coupled-sector matrices"))
    );
    assert_eq!(
        validate_hermitian_matricizations(&[short, square], &[true, true]),
        Err(OperationError::ElementCountMismatch { expected: 4, actual: 1 })
    );
    let regions = [region(0, 2, 2, 0, 4), region(1, 1, 1, 4, 5)];
    assert_eq!(validate_hermitian_regions(5, &regions, &[true, true]), Ok(()));
    assert_eq!(validate_hermitian_regions(5, &regions, &[true, false]), Err(refused));
    assert_eq!(
        validate_hermitian_regions(4, &regions, &[true, true]),
        Err(OperationError::ElementCountMismatch { expected: 5, actual: 4 })
    );
}

#[test]
fn values_are_read_in_place_where_a_layout_has_regions() {
    let structure = single(0, 2, 2);
    let data = [1i64, 2, 3, 4];
    let regions = vec![region(0, 2, 2, 0, 4)];
    let direct = value_matricizations(&structure, Some(regions), &data, 1, 0).unwrap();
    assert!(!direct.is_packed());
    assert_eq!(direct.get(0).unwrap().data.as_ptr(), data.as_ptr());
    let packed = value_matricizations(&structure, None, &data, 1, 0).unwrap();
    assert!(packed.is_packed());
    assert_eq!(packed.len(), 1);
    assert_eq!(packed.get(0).unwrap().data, data);
    let diagnostics = sector_matricization_diagnostic(&[matrix(0, 2, 2, &data)]);
    let expected =
        SectorMatricizationDiagnostic { sector: sector(0), rows: 2, cols: 2, elements: 4 };
    assert_eq!(diagnostics.len(), 1);
    assert_eq!(diagnostics[0].sector, expected.sector);
    assert_eq!(diagnostics[0].rows, expected.rows);
    assert_eq!(diagnostics[0].cols, expected.cols);
    assert_eq!(diagnostics[0].elements, expected.elements);
}

#[test]
fn sector_factors_are_scattered_on_one_side() {
    let structure = single(0, 2, 2);
    let matrices = [matrix(0, 2, 2, &[0; 4])];
    let factors = [SectorFactor { data: vec![1i64, 2, 3, 4], leading: 2 }];
    let data =
        scatter_sector_factors(&structure, &matrices, &factors, FactorSide::Left, 0).unwrap();
    assert_eq!(data, [1, 2, 3, 4]);
    let none: [SectorFactor<i64>; 0] = [];
    let data = scatter_sector_factors(&structure, &matrices, &none, FactorSide::Left, 9).unwrap();
    assert_eq!(data, [9; 4]);
}

#[test]
fn pairs_are_published_on_both_sides() {
    let matrices = [matrix(0, 2, 3, &[0; 6])];
    let pair = FactorPair {
        sector: sector(0),
        kept: 2,
        left: vec![1i64, 2, 3, 4],
        left_rows: 2,
        right: vec![5, 6, 7, 8, 9, 10],
        right_leading: 2,
    };
    let mut pairs = vec![pair.clone()];
    let (left, right) = build_left_right_bound_pair(
        &single(0, 2, 2),
        &single(0, 2, 3),
        &matrices,
        &mut pairs,
        0,
        1,
    )
    .unwrap();
    assert_eq!(left, pair.left);
    assert_eq!(right, pair.right);
    let mut stray = vec![FactorPair { sector: sector(8), ..pair }];
    assert_eq!(
        build_left_right_bound_pair(
            &single(0, 2, 2),
            &single(0, 2, 3),
            &matrices,
            &mut stray,
            0,
            1,
        ),
        Err(scope("factor sector absent from the source tensor"))
    );
}

#[test]
fn positive_factors_live_on_one_side_of_the_source() {
    let hom = FusionTreeHomSpace {
        codomain: FusionProductSpace { legs: vec![leg(&[(0, 2)])] },
        domain: FusionProductSpace { legs: vec![leg(&[(0, 3)])] },
    };
    let left = positive_homspace(&hom, PolarDirection::Left);
    assert_eq!((left.codomain, left.domain), (hom.domain.clone(), hom.domain.clone()));
    let right = positive_homspace(&hom, PolarDirection::Right);
    assert_eq!((right.codomain, right.domain), (hom.codomain.clone(), hom.codomain.clone()));
}

#[test]
fn empty_sectors_are_not_solved() {
    let route = |index: usize| SolveLeftSectorRoute { divisor: index, rhs: index, output: index };
    let divisor = [region(0, 2, 2, 0, 4), region(1, 0, 0, 4, 4), region(2, 1, 1, 4, 5)];
    let output = [region(0, 2, 1, 0, 2), region(1, 0, 3, 2, 2), region(2, 1, 0, 2, 2)];
    let routes = [route(0), route(1), route(2)];
    assert_eq!(solve_left_jobs(&routes, &divisor, &output), [route(0)]);
}

#[test]
fn joined_regions_reuse_the_first_buffer() {
    let mut probe = CompactQrCopyProbe {
        input_pack_calls: 1,
        input_pack_bytes: 1,
        output_scatter_calls: 1,
        output_scatter_bytes: 1,
        owned_output_publications: 1,
        owned_output_owner_reused: 1,
    };
    reset_compact_qr_copy_probe(&mut probe);
    let first = {
        let mut first = Vec::with_capacity(4);
        first.extend([1i64, 2]);
        first
    };
    let pointer = first.as_ptr();
    let joined =
        concat_compact_factor_regions(vec![Some(first), None, Some(vec![3, 4])], 4, &mut probe);
    assert_eq!(joined, [1, 2, 3, 4]);
    assert_eq!(joined.as_ptr(), pointer);
    assert_eq!(probe.owned_output_publications, 1);
    assert_eq!(probe.owned_output_owner_reused, 1);
    assert_eq!(probe.input_pack_calls, 0);
    assert!(concat_compact_factor_regions(Vec::<Option<Vec<i64>>>::new(), 0, &mut probe).is_empty());
    assert_eq!(probe.owned_output_publications, 2);
    assert_eq!(probe.owned_output_owner_reused, 1);

    let mut probe = CompactSvdCopyProbe {
        input_pack_calls: 0,
        input_pack_bytes: 0,
        output_scatter_calls: 0,
        output_scatter_bytes: 0,
        owned_output_publications: 0,
        owned_output_owner_reused: 0,
    };
    reset_compact_svd_copy_probe(&mut probe);
    let joined = concat_compact_svd_factor_regions(vec![None, Some(vec![5i64])], 1, &mut probe);
    assert_eq!(joined, [5]);
    assert_eq!(probe.owned_output_publications, 1);
    assert_eq!(probe.owned_output_owner_reused, 1);
}

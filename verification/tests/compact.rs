//! Factorizations from the sector matrices to their published factors, and what
//! they refuse.

use std::cell::Cell;

use tenet_matrixalgebra::bond::BondDimensions;
use tenet_matrixalgebra::compact_drive::{
    factor_by_sector_checked, factor_compact_by_sector, svd_compact_by_sector,
    svd_compact_by_sector_checked,
};
use tenet_matrixalgebra::completion::QrStage;
use tenet_matrixalgebra::direct::RouteFactors;
use tenet_matrixalgebra::eigen_drive::{eig_full_by_sector, eigh_full_by_sector};
use tenet_matrixalgebra::eigen_full::EigenStage;
use tenet_matrixalgebra::error::{DenseBackend, DenseError, OperationError};
use tenet_matrixalgebra::factor::{FactorPair, FactorPlacement, SectorRank};
use tenet_matrixalgebra::factor_routes::CompactFactorRoute;
use tenet_matrixalgebra::geometry::{CoupledSectorRegion, SectorMatricization, TreeExtent};
use tenet_matrixalgebra::input::InputMatricizations;
use tenet_matrixalgebra::keys::FactorTreeCursor;
use tenet_matrixalgebra::layout::FactorSide;
use tenet_matrixalgebra::matricize::sector_matricizations;
use tenet_matrixalgebra::null::RankedBasis;
use tenet_matrixalgebra::null_drive::null_space_by_sector;
use tenet_matrixalgebra::publish::{build_bound_factor, build_bound_factor_with_placement};
use tenet_matrixalgebra::route_drive::{
    eigh_full_by_route, factor_compact_by_route, lq_compact_by_route, svd_compact_by_route,
};
use tenet_matrixalgebra::sector::{FusionTreeKey, FusionTreePairKey, SectorId};
use tenet_matrixalgebra::sector_solve::{admit_inverse, admit_left_solve};
use tenet_matrixalgebra::sides::DriveError;
use tenet_matrixalgebra::space::{FusionProductSpace, FusionTreeHomSpace, MapSpace, SectorLeg};
use tenet_matrixalgebra::spectrum::SectorSpectrum;
use tenet_matrixalgebra::stages::BondExtent;
use tenet_matrixalgebra::structure::{Block, BlockKey, BlockStructure};
use tenet_matrixalgebra::svd_stage::SvdStage;

fn failure(message: &str) -> OperationError {
    OperationError::Dense(DenseError::Backend {
        backend: DenseBackend::Tenferro,
        op: "test",
        message: message.to_string(),
    })
}

fn refusal(message: &'static str) -> OperationError {
    OperationError::UnsupportedTensorContractScope { message }
}

fn leaf(id: usize) -> FusionTreeKey {
    FusionTreeKey {
        uncoupled: vec![SectorId::new(id)],
        coupled: SectorId::new(id),
        is_dual: vec![false],
        innerlines: Vec::new(),
        vertices: Vec::new(),
    }
}

fn key(codomain: FusionTreeKey, domain: FusionTreeKey) -> BlockKey {
    BlockKey::FusionTree(FusionTreePairKey { codomain, domain })
}

fn trees(id: usize, dimension: usize) -> Vec<TreeExtent> {
    vec![TreeExtent { tree: leaf(id), offset: 0, shape: vec![dimension] }]
}

fn region(id: usize, rows: usize, cols: usize, start: usize) -> CoupledSectorRegion {
    CoupledSectorRegion {
        coupled: SectorId::new(id),
        rows,
        cols,
        start,
        end: start + rows * cols,
        row_trees: trees(id, rows),
        col_trees: trees(id, cols),
    }
}

fn matrix(id: usize, rows: usize, cols: usize, data: &[i64]) -> SectorMatricization<i64> {
    SectorMatricization {
        sector: SectorId::new(id),
        rows,
        cols,
        row_trees: trees(id, rows),
        col_trees: trees(id, cols),
        data: data.to_vec(),
    }
}

/// Blocks of one sector each, one after the other.
fn structure(shapes: &[(usize, usize, usize)]) -> BlockStructure {
    let mut start = 0;
    let mut blocks = Vec::new();
    for &(id, rows, cols) in shapes {
        blocks.push(Block {
            key: key(leaf(id), leaf(id)),
            shape: vec![rows, cols],
            strides: vec![1, rows],
            offset: start,
        });
        start += rows * cols;
    }
    BlockStructure::new(blocks, start).unwrap()
}

fn space(shapes: &[(usize, usize, usize)]) -> MapSpace {
    let leg = |ids: Vec<(usize, usize)>| FusionProductSpace {
        legs: vec![SectorLeg::new(
            ids.into_iter()
                .map(|(id, kept)| SectorRank { sector: SectorId::new(id), kept })
                .collect(),
        )],
    };
    MapSpace {
        rule_identity: Some(1),
        provider: 7,
        homspace: FusionTreeHomSpace {
            codomain: leg(shapes.iter().map(|s| (s.0, s.1)).collect()),
            domain: leg(shapes.iter().map(|s| (s.0, s.2)).collect()),
        },
        nout: 1,
        nin: 1,
        rank: 2,
        structure: structure(shapes),
        regions: None,
    }
}

fn listed(leg: &SectorLeg) -> Vec<(usize, usize)> {
    leg.sectors.iter().map(|rank| (rank.sector.id(), rank.kept)).collect()
}

fn packed() -> InputMatricizations<'static, i64> {
    InputMatricizations::Packed(vec![
        matrix(1, 2, 1, &[3, 4]),
        matrix(0, 1, 2, &[5, 6]),
    ])
}

/// Marks the first element of the matrix in both factors.
fn marked(matrix: &[i64], rows: usize, cols: usize) -> Result<RouteFactors<i64>, OperationError> {
    let kept = rows.min(cols);
    Ok(RouteFactors {
        left: (0..rows * kept).map(|k| 100 * matrix[0] + k as i64).collect(),
        right: (0..kept * cols).map(|k| -100 * matrix[0] - k as i64).collect(),
    })
}

fn marked_svd(
    matrix: &[i64],
    rows: usize,
    cols: usize,
) -> Result<SvdStage<i64, i64>, OperationError> {
    let factors = marked(matrix, rows, cols)?;
    let values = vec![matrix[0]; rows.min(cols)];
    Ok(SvdStage { u: factors.left, values, vt: factors.right })
}

fn fails_on_one_row<T>(
    work: impl Fn(&[i64], usize, usize) -> Result<T, OperationError>,
) -> impl Fn(&[i64], usize, usize) -> Result<T, OperationError> {
    move |matrix: &[i64], rows: usize, cols: usize| {
        if rows == 1 {
            Err(failure("no convergence"))
        } else {
            work(matrix, rows, cols)
        }
    }
}

fn spectrum(id: usize, values: &[i64]) -> SectorSpectrum<i64> {
    SectorSpectrum { sector: SectorId::new(id), values: values.to_vec() }
}

#[test]
fn compact_svds_are_scattered_sector_by_sector() {
    // The outputs hold the sectors in another order than the source.
    let u = structure(&[(0, 1, 1), (1, 2, 1)]);
    let vh = structure(&[(0, 1, 2), (1, 1, 1)]);
    let found = svd_compact_by_sector(&u, &vh, &packed(), &marked_svd, 0).unwrap();
    assert_eq!(found.u, [500, 300, 301]);
    assert_eq!(found.vh, [-500, -501, -300]);
    assert_eq!(found.singular_values, [spectrum(1, &[3]), spectrum(0, &[5])]);
    let failing = fails_on_one_row(marked_svd);
    assert_eq!(
        svd_compact_by_sector(&u, &vh, &packed(), &failing, 0),
        Err(failure("no convergence"))
    );
    // The refusal of the first sector comes before the failure of the second.
    let mut other = leaf(1);
    other.vertices = vec![9];
    let block = Block {
        key: key(other.clone(), other),
        shape: vec![2, 1],
        strides: vec![1, 2],
        offset: 0,
    };
    let lacking = BlockStructure::new(vec![block], 2).unwrap();
    assert_eq!(
        svd_compact_by_sector(&lacking, &vh, &packed(), &failing, 0),
        Err(refusal("factor codomain tree absent from the source matricization"))
    );
}

#[test]
fn compact_factors_are_published_on_the_bond_that_was_laid_out() {
    let asked = Cell::new(0);
    let expected = Cell::new([(0, 1), (1, 1)]);
    let left = |bond: &SectorLeg| -> Result<MapSpace, &'static str> {
        asked.set(asked.get() + 1);
        assert_eq!(listed(bond), expected.get());
        Ok(space(&[(0, 1, 1), (1, 2, 1)]))
    };
    let right = |bond: &SectorLeg| -> Result<MapSpace, &'static str> {
        asked.set(asked.get() + 10);
        assert_eq!(listed(bond), expected.get());
        Ok(space(&[(0, 1, 2), (1, 1, 1)]))
    };
    let compact = BondExtent::Compact;
    let found = factor_compact_by_sector(&packed(), &marked, &left, &right, 0, 1).unwrap();
    assert_eq!(found.left, [500, 300, 301]);
    assert_eq!(found.right, [-500, -501, -300]);
    assert_eq!(found.left_space, space(&[(0, 1, 1), (1, 2, 1)]));
    assert_eq!(found.right_space, space(&[(0, 1, 2), (1, 1, 1)]));
    // Where labels are checked, the leg has the ranks in the order of the source.
    expected.set([(1, 1), (0, 1)]);
    let checked =
        factor_by_sector_checked(&packed(), &marked, compact, &left, &right, 0).unwrap();
    assert_eq!(checked, found);
    let (svd, values) =
        svd_compact_by_sector_checked(&packed(), &marked_svd, &left, &right, 0).unwrap();
    assert_eq!(svd, found);
    assert_eq!(values, [spectrum(1, &[3]), spectrum(0, &[5])]);
    assert_eq!(asked.get(), 33);
    // A failure of the backend comes before the layout, and a missing layout
    // after it.
    let failing = fails_on_one_row(marked);
    assert_eq!(
        factor_compact_by_sector(&packed(), &failing, &left, &right, 0, 1),
        Err(DriveError::Operation(failure("no convergence")))
    );
    assert_eq!(
        svd_compact_by_sector_checked(&packed(), &fails_on_one_row(marked_svd), &left, &right, 0),
        Err(DriveError::Operation(failure("no convergence")))
    );
    assert_eq!(asked.get(), 33);
    let none = |_: &SectorLeg| -> Result<MapSpace, &'static str> { Err("no layout") };
    assert_eq!(
        factor_by_sector_checked(&packed(), &marked, compact, &none, &right, 0),
        Err(DriveError::Layout("no layout"))
    );
    assert_eq!(asked.get(), 33);
    expected.set([(0, 1), (1, 1)]);
    assert_eq!(
        factor_compact_by_sector(&packed(), &marked, &left, &none, 0, 1),
        Err(DriveError::Layout("no layout"))
    );
}

#[test]
fn the_left_side_is_refused_before_the_right_one_is_laid_out() {
    let mut other = leaf(1);
    other.vertices = vec![9];
    let mut lacking = space(&[(1, 2, 1)]);
    let block = Block {
        key: key(other.clone(), leaf(1)),
        shape: vec![2, 1],
        strides: vec![1, 2],
        offset: 0,
    };
    lacking.structure = BlockStructure::new(vec![block], 2).unwrap();
    let left = |_: &SectorLeg| -> Result<MapSpace, &'static str> { Ok(lacking.clone()) };
    let right = |_: &SectorLeg| -> Result<MapSpace, &'static str> { Err("no layout") };
    let absent = refusal("factor codomain tree absent from the source matricization");
    let compact = BondExtent::Compact;
    assert_eq!(
        factor_by_sector_checked(&packed(), &marked, compact, &left, &right, 0),
        Err(DriveError::Operation(absent.clone()))
    );
    assert_eq!(
        svd_compact_by_sector_checked(&packed(), &marked_svd, &left, &right, 0),
        Err(DriveError::Operation(absent.clone()))
    );
    assert_eq!(
        factor_compact_by_sector(&packed(), &marked, &left, &right, 0, 1),
        Err(DriveError::Operation(absent))
    );
}

fn route(source: usize, to: Option<usize>, id: usize, rank: usize) -> CompactFactorRoute {
    CompactFactorRoute {
        source_region: source,
        left_region: to,
        right_region: to,
        sector: SectorId::new(id),
        rank,
    }
}

#[test]
fn compact_factors_follow_their_routes() {
    let source = [region(1, 2, 1, 0), region(0, 1, 2, 2), region(2, 0, 3, 4)];
    let data = [3, 4, 5, 6];
    // The outputs hold sector 0 first, and the last route has no elements.
    let routes = [route(0, Some(1), 1, 1), route(1, Some(0), 0, 1), route(2, None, 2, 0)];
    let (left, right) =
        factor_compact_by_route(&routes, &source, &data, 2, 2, 3, 3, &marked).unwrap();
    assert_eq!(left, [500, 300, 301]);
    assert_eq!(right, [-500, -501, -300]);
    let found = svd_compact_by_route(&routes, &source, &data, 2, 2, 3, 3, &marked_svd).unwrap();
    assert_eq!((found.u, found.vh), (left, right));
    assert_eq!(
        found.singular_values,
        [spectrum(1, &[3]), spectrum(0, &[5]), spectrum(2, &[])]
    );
    let failing = fails_on_one_row(marked);
    assert_eq!(
        factor_compact_by_route(&routes, &source, &data, 2, 2, 3, 3, &failing),
        Err(failure("no convergence"))
    );
    assert_eq!(
        factor_compact_by_route(&routes, &source, &data[..3], 2, 2, 3, 3, &marked),
        Err(OperationError::ElementCountMismatch { expected: 4, actual: 3 })
    );
}

#[test]
fn lq_factors_are_adjoint_along_their_routes() {
    let source = [region(1, 2, 1, 0), region(0, 1, 2, 2)];
    let routes = [route(0, Some(1), 1, 1), route(1, Some(0), 0, 1)];
    let left = [region(0, 1, 1, 0), region(1, 2, 1, 1)];
    let right = [region(0, 1, 2, 0), region(1, 1, 1, 2)];
    // The QR of the adjoint has `cols` rows and `rows` columns.
    let qr = |matrix: &[i64], rows: usize, cols: usize| {
        let factors = marked(matrix, rows, cols)?;
        Ok(QrStage { q: factors.left, r: factors.right })
    };
    let negate = |value: i64| -value;
    let run = |qr: &dyn Fn(&[i64], usize, usize) -> Result<QrStage<i64>, OperationError>| {
        lq_compact_by_route(
            &routes,
            &source,
            &[3, 4, 5, 6],
            &left,
            &right,
            3,
            3,
            &negate,
            &|m: &[i64], r: usize, c: usize| qr(m, r, c),
            0,
        )
    };
    let (l, q) = run(&qr).unwrap();
    // The backend saw the negated first elements.
    assert_eq!(l, [-500, -300, -299]);
    assert_eq!(q, [500, 499, 300]);
    let broken =
        |_: &[i64], _: usize, _: usize| -> Result<QrStage<i64>, OperationError> {
            Err(failure("no convergence"))
        };
    assert_eq!(run(&broken), Err(failure("no convergence")));
}

fn marked_eigen(
    matrix: &[i64],
    rows: usize,
    _: usize,
) -> Result<EigenStage<i64, i64>, OperationError> {
    Ok(EigenStage {
        values: vec![matrix[0]; rows],
        vectors: (0..rows * rows).map(|k| 100 * matrix[0] + k as i64).collect(),
    })
}

#[test]
fn eigenvectors_are_published_on_the_bond_of_the_orders() {
    let input = || {
        InputMatricizations::Packed(vec![matrix(1, 2, 2, &[3, 0, 0, 4]), matrix(0, 1, 1, &[5])])
    };
    let shapes = [(0, 1, 1), (1, 2, 2)];
    let expected = vec![500, 300, 301, 302, 303];
    let values = vec![spectrum(1, &[3, 3]), spectrum(0, &[5])];
    let (vectors, spectra) =
        eigh_full_by_sector(&structure(&shapes), &input(), &marked_eigen, 0).unwrap();
    assert_eq!((&vectors, &spectra), (&expected, &values));
    let source = [region(1, 2, 2, 0), region(0, 1, 1, 4)];
    let routes = [route(0, Some(1), 1, 2), route(1, Some(0), 0, 1)];
    let left = [region(0, 1, 1, 0), region(1, 2, 2, 1)];
    let by_route =
        eigh_full_by_route(&routes, &source, &[3, 0, 0, 4, 5], &left, 5, &marked_eigen).unwrap();
    assert_eq!(by_route, (expected.clone(), values.clone()));
    let layout = |bond: &SectorLeg| -> Result<MapSpace, &'static str> {
        assert_eq!(listed(bond), [(0, 1), (1, 2)]);
        Ok(space(&shapes))
    };
    for checked in [false, true] {
        let found =
            eig_full_by_sector(&input(), &marked_eigen, &layout, checked, 0, 1).unwrap();
        assert_eq!(found.vectors, expected);
        assert_eq!(found.values, values);
        assert_eq!(found.space, space(&shapes));
        let failing = fails_on_one_row(|m: &[i64], r: usize, c: usize| marked_eigen(m, r, c));
        assert_eq!(
            eig_full_by_sector(&input(), &failing, &layout, checked, 0, 1),
            Err(DriveError::Operation(failure("no convergence")))
        );
    }
    let failing = fails_on_one_row(|m: &[i64], r: usize, c: usize| marked_eigen(m, r, c));
    assert_eq!(
        eigh_full_by_sector(&structure(&shapes), &input(), &failing, 0),
        Err(failure("no convergence"))
    );
}

#[test]
fn null_spaces_keep_what_is_left_behind_the_ranks() {
    let input = || {
        InputMatricizations::Packed(vec![matrix(1, 2, 1, &[3, 4]), matrix(0, 1, 2, &[5, 6])])
    };
    // Sector 1 has one direction left, sector 0 none, and sector 2 has no matrix.
    let dimensions = || {
        let mut dimensions = BondDimensions::new();
        for (id, extent) in [(0, 1), (1, 2), (2, 1)] {
            dimensions.insert(SectorId::new(id), extent);
        }
        dimensions
    };
    let bases = |matrix: &[i64], rows: usize, cols: usize| {
        let rank = rows.min(cols);
        let basis = if rank < rows {
            (0..rows * rows).map(|k| 10 * matrix[0] + k as i64).collect()
        } else {
            Vec::new()
        };
        Ok(RankedBasis { rank, basis })
    };
    let layout = |bond: &SectorLeg| -> Result<MapSpace, &'static str> {
        assert_eq!(listed(bond), [(1, 1), (2, 1)]);
        Ok(space(&[(1, 2, 1), (2, 1, 1)]))
    };
    for checked in [false, true] {
        let found = null_space_by_sector(
            &input(),
            dimensions(),
            FactorSide::Left,
            &bases,
            &|value: i64| value,
            &layout,
            checked,
            0,
            1,
        )
        .unwrap();
        // The last column of the basis, and an identity where there is no matrix.
        assert_eq!(found.basis, [32, 33, 1]);
        assert_eq!(found.space, space(&[(1, 2, 1), (2, 1, 1)]));
    }
    let none = |_: &SectorLeg| -> Result<MapSpace, &'static str> { Err("no layout") };
    let missing = null_space_by_sector(
        &input(),
        dimensions(),
        FactorSide::Left,
        &bases,
        &|value: i64| value,
        &none,
        true,
        0,
        1,
    );
    assert_eq!(missing, Err(DriveError::Layout("no layout")));
}

#[test]
fn blocks_of_one_tree_stack_by_extent_and_not_by_shape() {
    let mut other = leaf(0);
    other.vertices = vec![1];
    let block = |shape: [usize; 3], domain: FusionTreeKey, offset: usize| Block {
        key: key(leaf(0), domain),
        shape: shape.to_vec(),
        strides: vec![1, shape[0], 6],
        offset,
    };
    let blocks = vec![block([2, 3, 1], leaf(0), 0), block([3, 2, 1], other.clone(), 6)];
    let layout = BlockStructure::new(blocks, 12).unwrap();
    // The source may hold more than the layout needs.
    let data: Vec<i64> = (0..15).collect();
    let matrices = sector_matricizations(&layout, &data, 2, -1).unwrap();
    assert_eq!(matrices.len(), 1);
    assert_eq!((matrices[0].rows, matrices[0].cols), (6, 2));
    assert_eq!(matrices[0].data, (0..12).collect::<Vec<i64>>());
    let extent = |tree: FusionTreeKey, offset: usize, shape: &[usize]| TreeExtent {
        tree,
        offset,
        shape: shape.to_vec(),
    };
    assert_eq!(matrices[0].row_trees, [extent(leaf(0), 0, &[2, 3])]);
    assert_eq!(matrices[0].col_trees, [extent(leaf(0), 0, &[1]), extent(other, 1, &[1])]);
}

fn pair(id: usize, left: usize) -> FactorPair<i64> {
    FactorPair {
        sector: SectorId::new(id),
        kept: 1,
        left: vec![7; left],
        left_rows: 2,
        right: vec![8],
        right_leading: 1,
    }
}

#[test]
fn a_refusal_reads_no_factor_and_keeps_the_pairs() {
    let matrices = [matrix(0, 2, 1, &[1, 2]), matrix(1, 2, 1, &[3, 4])];
    // The factors are too short for the output.
    let output = structure(&[(1, 2, 1), (0, 2, 1)]);
    let stray = vec![pair(0, 0), pair(5, 0)];
    let bond = BondDimensions::of_pairs(&stray);
    for placement in [FactorPlacement::Direct, FactorPlacement::Adjoint] {
        let mut pairs = stray.clone();
        assert_eq!(
            build_bound_factor_with_placement(
                &output,
                &matrices,
                &mut pairs,
                &bond,
                FactorSide::Left,
                placement,
                0,
                1,
            ),
            Err(refusal("factor sector absent from the source tensor"))
        );
        assert_eq!(pairs, stray);
    }
    // Sector 1 comes first in the output and has no pair.
    let missing = vec![pair(0, 0)];
    let bond = BondDimensions::of_pairs(&missing);
    let mut pairs = missing.clone();
    assert_eq!(
        build_bound_factor(&output, &matrices, &mut pairs, &bond, FactorSide::Left, 0, 1),
        Err(refusal("factor rank absent for a populated source sector"))
    );
    assert_eq!(pairs, missing);
}

#[test]
fn a_walk_compares_sectors_when_it_comes_to_them() {
    let left = FactorSide::Left;
    let matrices =
        [matrix(0, 1, 1, &[1]), matrix(1, 1, 1, &[2]), matrix(2, 1, 1, &[3])];
    let ranks = |ids: [usize; 3]| ids.map(|id| SectorRank { sector: SectorId::new(id), kept: 1 });
    let agreeing = ranks([0, 1, 2]);
    let mut cursor = FactorTreeCursor::new(&matrices, &agreeing);
    assert!(cursor.matches(left, &leaf(0)));
    // The walk goes on behind a tree that the key does not match.
    assert!(!cursor.matches(left, &leaf(2)));
    assert!(cursor.matches(left, &leaf(2)));
    assert!(cursor.is_exhausted(left));
    assert!(!cursor.matches(left, &leaf(2)));

    // The third rank belongs to another sector: the walk is invalid from there on.
    let differing = ranks([0, 1, 9]);
    let mut cursor = FactorTreeCursor::new(&matrices, &differing);
    assert!(cursor.matches(left, &leaf(0)));
    assert!(cursor.matches(left, &leaf(1)));
    assert!(cursor.matches(left, &leaf(2)));
    assert!(!cursor.is_exhausted(left));

    let few = [SectorRank { sector: SectorId::new(0), kept: 1 }];
    assert!(!FactorTreeCursor::new(&matrices, &few).matches(left, &leaf(0)));
    let turned = [matrix(1, 1, 1, &[2]), matrix(0, 1, 1, &[1])];
    let ranks = [1, 0].map(|id| SectorRank { sector: SectorId::new(id), kept: 1 });
    assert!(!FactorTreeCursor::new(&turned, &ranks).matches(left, &leaf(1)));
}

#[test]
fn solves_and_inverses_are_admitted_on_isomorphic_spaces() {
    let divisor = space(&[(0, 2, 3)]);
    let rhs = space(&[(0, 2, 4)]);
    let asked = Cell::new(0);
    let verdict = |answer: Result<bool, OperationError>| {
        let asked = &asked;
        move || {
            asked.set(asked.get() + 1);
            answer.clone()
        }
    };
    let hom = admit_left_solve(&divisor, &rhs, &verdict(Ok(true))).unwrap();
    assert_eq!(hom.codomain, divisor.homspace.domain);
    assert_eq!(hom.domain, rhs.homspace.domain);
    assert_eq!(
        admit_left_solve(&divisor, &rhs, &verdict(Ok(false))),
        Err(refusal("solve requires an isomorphic divisor codomain and domain"))
    );
    assert_eq!(
        admit_left_solve(&divisor, &rhs, &verdict(Err(failure("no answer")))),
        Err(failure("no answer"))
    );
    assert_eq!(asked.get(), 3);
    // The provider is not asked where rules or codomains differ.
    let mut foreign = space(&[(0, 2, 4)]);
    foreign.rule_identity = Some(2);
    assert_eq!(
        admit_left_solve(&divisor, &foreign, &verdict(Ok(true))),
        Err(OperationError::FusionRuleMismatch { expected: 1, actual: 2 })
    );
    foreign.rule_identity = None;
    assert!(admit_left_solve(&divisor, &foreign, &verdict(Ok(true))).is_ok());
    assert_eq!(
        admit_left_solve(&divisor, &space(&[(0, 3, 4)]), &verdict(Ok(true))),
        Err(refusal("solve requires equal divisor and right-hand-side codomains"))
    );
    assert_eq!(asked.get(), 4);

    let inverse = admit_inverse(&divisor, &verdict(Ok(true))).unwrap();
    assert_eq!(inverse.codomain, divisor.homspace.domain);
    assert_eq!(inverse.domain, divisor.homspace.codomain);
    assert_eq!(
        admit_inverse(&divisor, &verdict(Ok(false))),
        Err(refusal("inv requires isomorphic codomain and domain"))
    );
}

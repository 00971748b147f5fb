//! Sector-wise work over a dense backend.

use std::cell::{Cell, RefCell};

use tenet_matrixalgebra::completion::{
    full_qr_numerical_stage, full_svd_numerical_stage, lq_by_adjoint, orthonormal_completion,
    QrStage,
};
use tenet_matrixalgebra::direct::RouteFactors;
use tenet_matrixalgebra::error::{DenseBackend, DenseError, OperationError};
use tenet_matrixalgebra::exponential::{exp_pade13_sector, PadeScalars};
use tenet_matrixalgebra::factor::{FactorPair, SectorRank};
use tenet_matrixalgebra::factor_routes::{compact_bond_leg, CompactFactorRoute};
use tenet_matrixalgebra::geometry::{CoupledSectorRegion, SectorMatricization, TreeExtent};
use tenet_matrixalgebra::input::InputMatricizations;
use tenet_matrixalgebra::pinv_drive::pinv_by_sector_dyn_into;
use tenet_matrixalgebra::polar::PolarDirection;
use tenet_matrixalgebra::polar_drive::{checked_generic_polar_products, polar_by_sector_dyn_into};
use tenet_matrixalgebra::sector::{FusionTreeKey, FusionTreePairKey, SectorId};
use tenet_matrixalgebra::sector_drive::{
    inverse_by_sector_dyn_into, map_square_sectors_dyn_into,
};
use tenet_matrixalgebra::sector_solve::publish_region_images;
use tenet_matrixalgebra::solve_drive::solve_left_by_sector_dyn_into;
use tenet_matrixalgebra::space::{FusionProductSpace, FusionTreeHomSpace, MapSpace, SectorLeg};
use tenet_matrixalgebra::spectrum::SectorSpectrum;
use tenet_matrixalgebra::stages::{
    bond_pairs, label_spectra, route_stages, sector_stages, split_stages, stages_until_failure,
    BondExtent,
};
use tenet_matrixalgebra::structure::{Block, BlockKey, BlockStructure};
use tenet_matrixalgebra::svd_stage::{scale_cols, scale_rows, SvdStage};

fn failure(message: &str) -> OperationError {
    OperationError::Dense(DenseError::Backend {
        backend: DenseBackend::Tenferro,
        op: "test",
        message: message.to_string(),
    })
}

fn matmul(
    lhs: &[f64],
    rows: usize,
    inner: usize,
    rhs: &[f64],
    cols: usize,
) -> Result<Vec<f64>, OperationError> {
    let mut product = vec![0.0; rows * cols];
    for col in 0..cols {
        for row in 0..rows {
            for k in 0..inner {
                product[row + rows * col] += lhs[row + rows * k] * rhs[k + inner * col];
            }
        }
    }
    Ok(product)
}

/// Elimination without pivots; enough for the matrices of these tests.
fn solve(
    matrix: &[f64],
    order: usize,
    rhs: &[f64],
    cols: usize,
) -> Result<Vec<f64>, OperationError> {
    let mut a = matrix.to_vec();
    let mut x = rhs.to_vec();
    for pivot in 0..order {
        for row in 0..order {
            if row == pivot {
                continue;
            }
            let factor = a[row + order * pivot] / a[pivot + order * pivot];
            for col in 0..order {
                a[row + order * col] -= factor * a[pivot + order * col];
            }
            for col in 0..cols {
                x[row + order * col] -= factor * x[pivot + order * col];
            }
        }
    }
    for row in 0..order {
        for col in 0..cols {
            x[row + order * col] /= a[row + order * row];
        }
    }
    Ok(x)
}

const COEFFICIENTS: [f64; 14] = [
    64_764_752_532_480_000.0,
    32_382_376_266_240_000.0,
    7_771_770_303_897_600.0,
    1_187_353_796_428_800.0,
    129_060_195_264_000.0,
    10_559_470_521_600.0,
    670_442_572_800.0,
    33_522_128_640.0,
    1_323_241_920.0,
    40_840_800.0,
    960_960.0,
    16_380.0,
    182.0,
    1.0,
];

fn exponential(
    source: &[f64],
    order: usize,
    squarings: u32,
    product: &impl Fn(&[f64], usize, usize, &[f64], usize) -> Result<Vec<f64>, OperationError>,
) -> Result<Vec<f64>, OperationError> {
    exp_pade13_sector(
        source,
        order,
        squarings,
        PadeScalars {
            coefficients: &COEFFICIENTS,
            scale: 0.5_f64.powi(squarings as i32),
            minus_one: -1.0,
            zero: 0.0,
        },
        &|a: f64, b: f64| a + b,
        &|a: f64, b: f64| a * b,
        product,
        &|m: &[f64], n: usize, r: &[f64], c: usize| solve(m, n, r, c),
    )
}

fn close(found: &[f64], expected: &[f64]) {
    assert_eq!(found.len(), expected.len());
    for (a, b) in found.iter().zip(expected) {
        assert!((a - b).abs() <= 1e-12 * (1.0 + b.abs()), "{a} is not {b}");
    }
}

#[test]
fn exponentials_match_closed_forms() {
    let nilpotent = exponential(&[0.0, 0.0, 1.0, 0.0], 2, 0, &matmul).unwrap();
    close(&nilpotent, &[1.0, 0.0, 1.0, 1.0]);
    let diagonal = exponential(&[1.0, 0.0, 0.0, -2.0], 2, 0, &matmul).unwrap();
    close(&diagonal, &[1.0_f64.exp(), 0.0, 0.0, (-2.0_f64).exp()]);
    // Scaling and squaring undo each other.
    let squared = exponential(&[1.0, 0.0, 0.0, -2.0], 2, 3, &matmul).unwrap();
    close(&squared, &diagonal);
    let angle: f64 = 0.75;
    let rotation = exponential(&[0.0, angle, -angle, 0.0], 2, 1, &matmul).unwrap();
    close(&rotation, &[angle.cos(), angle.sin(), -angle.sin(), angle.cos()]);
}

#[test]
fn the_first_failed_product_ends_an_exponential() {
    for failing in 0..8 {
        let calls = Cell::new(0);
        let product = |l: &[f64], r: usize, k: usize, h: &[f64], c: usize| {
            calls.set(calls.get() + 1);
            if calls.get() == failing + 1 {
                return Err(failure("stop"));
            }
            matmul(l, r, k, h, c)
        };
        let result = exponential(&[0.5], 1, 2, &product);
        assert_eq!(result, Err(failure("stop")));
        assert_eq!(calls.get(), failing + 1);
    }
}

fn leaf(id: usize) -> FusionTreeKey {
    FusionTreeKey {
        uncoupled: vec![SectorId::new(id)],
        coupled: SectorId::new(id),
        is_dual: vec![false],
        innerlines: Vec::new(),
        vertices: Vec::new(),
    }
}

fn trees(id: usize, dimension: usize) -> Vec<TreeExtent> {
    vec![TreeExtent { tree: leaf(id), offset: 0, shape: vec![dimension] }]
}

fn region(id: usize, rows: usize, cols: usize, start: usize) -> CoupledSectorRegion {
    CoupledSectorRegion {
        coupled: SectorId::new(id),
        rows,
        cols,
        start,
        end: start + rows * cols,
        row_trees: trees(id, rows),
        col_trees: trees(id, cols),
    }
}

fn matrix(id: usize, rows: usize, cols: usize, data: &[f64]) -> SectorMatricization<f64> {
    SectorMatricization {
        sector: SectorId::new(id),
        rows,
        cols,
        row_trees: trees(id, rows),
        col_trees: trees(id, cols),
        data: data.to_vec(),
    }
}

/// A layout of one block per sector, each in one piece.
fn space(shapes: &[(usize, usize, usize)], with_regions: bool) -> MapSpace {
    let mut blocks = Vec::new();
    let mut regions = Vec::new();
    let mut start = 0;
    for &(id, rows, cols) in shapes {
        blocks.push(Block {
            key: BlockKey::FusionTree(FusionTreePairKey { codomain: leaf(id), domain: leaf(id) }),
            shape: vec![rows, cols],
            strides: vec![1, rows],
            offset: start,
        });
        regions.push(region(id, rows, cols, start));
        start += rows * cols;
    }
    let leg = |extent: fn(&(usize, usize, usize)) -> usize| {
        let ranks = shapes
            .iter()
            .map(|shape| SectorRank { sector: SectorId::new(shape.0), kept: extent(shape) });
        FusionProductSpace { legs: vec![SectorLeg::new(ranks.collect())] }
    };
    MapSpace {
        rule_identity: Some(1),
        provider: 7,
        homspace: FusionTreeHomSpace { codomain: leg(|s| s.1), domain: leg(|s| s.2) },
        nout: 1,
        nin: 1,
        rank: 2,
        structure: BlockStructure::new(blocks, start).unwrap(),
        regions: with_regions.then_some(regions),
    }
}

#[test]
fn every_region_holds_its_own_image() {
    let regions = vec![region(0, 1, 2, 1), region(1, 2, 1, 4), region(2, 1, 1, 3)];
    let images = vec![vec![5.0, 6.0], vec![7.0, 8.0]];
    let data = publish_region_images(&[1, 0], &images, &regions, 7, 0.0);
    assert_eq!(data[4..6], [5.0, 6.0]);
    assert_eq!(data[1..3], [7.0, 8.0]);
    // What no image covers stays zero.
    assert_eq!(data, vec![0.0, 7.0, 8.0, 0.0, 5.0, 6.0, 0.0]);
}

#[test]
fn every_square_sector_is_inverted() {
    let shapes = [(0, 2, 2), (1, 1, 1), (2, 0, 0)];
    let output = space(&shapes, true);
    let data = [1.0, 0.0, 2.0, 1.0, 4.0];
    for with_regions in [true, false] {
        let source = space(&shapes, with_regions);
        let asked = RefCell::new(Vec::new());
        let backend = |m: &[f64], n: usize, r: &[f64], c: usize| {
            asked.borrow_mut().push((n, r.to_vec(), c));
            solve(m, n, r, c)
        };
        let inverse =
            inverse_by_sector_dyn_into(&source, &data, &output, 0.0, 1.0, &backend).unwrap();
        close(&inverse, &[1.0, 0.0, -2.0, 1.0, 0.25]);
        let identity = vec![1.0, 0.0, 0.0, 1.0];
        assert_eq!(asked.into_inner(), [(2, identity, 2), (1, vec![1.0], 1)]);
    }
    let broken = |_: &[f64], n: usize, _: &[f64], _: usize| {
        if n == 1 {
            Err(failure("singular"))
        } else {
            Ok(vec![0.0; n * n])
        }
    };
    let source = space(&shapes, true);
    assert_eq!(
        inverse_by_sector_dyn_into(&source, &data, &output, 0.0, 1.0, &broken),
        Err(failure("singular"))
    );
}

#[test]
fn images_are_moved_into_the_output_basis() {
    // The output stacks the two trees of its sector in the other order.
    let mut other = leaf(0);
    other.vertices = vec![1];
    let pair = |codomain: &FusionTreeKey, domain: &FusionTreeKey, offset: usize| Block {
        key: BlockKey::FusionTree(FusionTreePairKey {
            codomain: codomain.clone(),
            domain: domain.clone(),
        }),
        shape: vec![1, 1],
        strides: vec![1, 1],
        offset,
    };
    let (first, second) = (leaf(0), other);
    let blocks = vec![
        pair(&first, &first, 0),
        pair(&second, &first, 1),
        pair(&first, &second, 2),
        pair(&second, &second, 3),
    ];
    let mut source = space(&[(0, 2, 2)], false);
    source.structure = BlockStructure::new(blocks, 4).unwrap();
    let mut output = space(&[(0, 2, 2)], true);
    let swapped = |offset_of_first: usize| {
        vec![
            TreeExtent { tree: second.clone(), offset: 1 - offset_of_first, shape: vec![1] },
            TreeExtent { tree: first.clone(), offset: offset_of_first, shape: vec![1] },
        ]
    };
    let regions = output.regions.as_mut().unwrap();
    regions[0].row_trees = swapped(1);
    regions[0].col_trees = swapped(1);
    let image = map_square_sectors_dyn_into(
        &source,
        &[1.0, 2.0, 3.0, 4.0],
        &output,
        0.0,
        &|order: usize| Ok(order as f64),
        &|state: &f64, matrix: &[f64], _: usize| {
            Ok(matrix.iter().map(|value| value * state).collect())
        },
    )
    .unwrap();
    // The image of rows and columns in the other order, transposed as an
    // inverse is, doubled by the largest order.
    assert_eq!(image, [8.0, 6.0, 4.0, 2.0]);
}

#[test]
fn matrix_functions_keep_the_space_and_prepare_once() {
    let source = space(&[(0, 1, 1), (1, 2, 2)], true);
    let data = [3.0, 1.0, 2.0, 3.0, 4.0];
    let prepared = RefCell::new(Vec::new());
    let negate = |_: &(), matrix: &[f64], _: usize| -> Result<Vec<f64>, OperationError> {
        Ok(matrix.iter().map(|value| -value).collect())
    };
    let init = |order: usize| {
        prepared.borrow_mut().push(order);
        Ok(())
    };
    let image = map_square_sectors_dyn_into(&source, &data, &source, 0.0, &init, &negate).unwrap();
    assert_eq!(image, [-3.0, -1.0, -2.0, -3.0, -4.0]);
    assert_eq!(*prepared.borrow(), [2]);
    let refuse = |_: usize| -> Result<(), OperationError> { Err(failure("no room")) };
    assert_eq!(
        map_square_sectors_dyn_into(&source, &data, &source, 0.0, &refuse, &negate),
        Err(failure("no room"))
    );
    let other = space(&[(0, 1, 1), (1, 3, 3)], true);
    assert_eq!(
        map_square_sectors_dyn_into(&source, &data, &other, 0.0, &init, &negate),
        Err(OperationError::UnsupportedTensorContractScope {
            message: "matrix function output must preserve the input homspace"
        })
    );
}

#[test]
fn every_sector_is_solved() {
    let divisor = space(&[(0, 2, 2), (1, 1, 1)], true);
    let rhs = space(&[(0, 2, 1), (1, 1, 1)], true);
    let output = space(&[(0, 2, 1), (1, 1, 1)], true);
    let divisor_data = [2.0, 0.0, 0.0, 4.0, 5.0];
    let rhs_data = [2.0, 8.0, 10.0];
    let backend = |m: &[f64], n: usize, r: &[f64], c: usize| solve(m, n, r, c);
    let solution = solve_left_by_sector_dyn_into(
        &divisor,
        &divisor_data,
        &rhs,
        &rhs_data,
        &output,
        0.0,
        &backend,
    )
    .unwrap();
    close(&solution, &[1.0, 2.0, 2.0]);
    let broken = |_: &[f64], _: usize, _: &[f64], _: usize| -> Result<Vec<f64>, OperationError> {
        Err(failure("singular"))
    };
    assert_eq!(
        solve_left_by_sector_dyn_into(
            &divisor,
            &divisor_data,
            &rhs,
            &rhs_data,
            &output,
            0.0,
            &broken,
        ),
        Err(failure("singular"))
    );
}

/// The SVD of a diagonal matrix with descending nonnegative entries.
fn diagonal_svd(
    matrix: &[f64],
    rows: usize,
    cols: usize,
) -> Result<SvdStage<f64, f64>, OperationError> {
    let rank = rows.min(cols);
    let mut u = vec![0.0; rows * rank];
    let mut vt = vec![0.0; rank * cols];
    let mut values = Vec::new();
    for k in 0..rank {
        u[k + rows * k] = 1.0;
        vt[k + rank * k] = 1.0;
        values.push(matrix[k + rows * k]);
    }
    Ok(SvdStage { u, values, vt })
}

#[test]
fn pseudo_inverses_share_one_cutoff() {
    let source = space(&[(0, 2, 3), (1, 1, 1)], true);
    let output = space(&[(0, 3, 2), (1, 1, 1)], true);
    let data = [8.0, 0.0, 0.0, 2.0, 0.0, 0.0, 0.5];
    let seen = RefCell::new(Vec::new());
    let reciprocals = |spectra: &Vec<Vec<f64>>| -> Vec<Vec<f64>> {
        seen.borrow_mut().push(spectra.clone());
        let largest = spectra.iter().flatten().copied().fold(0.0, f64::max);
        let reciprocal = |sigma: &f64| if *sigma > 0.1 * largest { 1.0 / sigma } else { 0.0 };
        spectra.iter().map(|values| values.iter().map(reciprocal).collect()).collect()
    };
    let run = |svd: &dyn Fn(
        &[f64],
        usize,
        usize,
    ) -> Result<SvdStage<f64, f64>, OperationError>| {
        pinv_by_sector_dyn_into(
            &source,
            &data,
            &output,
            0.0,
            &|m: &[f64], r: usize, c: usize| svd(m, r, c),
            &reciprocals,
            &|value: f64| value,
            &|a: f64, b: f64| a * b,
            &matmul,
        )
    };
    let inverse = run(&diagonal_svd).unwrap();
    // The single entry of the second sector lies below the cutoff of both.
    assert_eq!(inverse, [0.125, 0.0, 0.0, 0.0, 0.5, 0.0, 0.0]);
    assert_eq!(*seen.borrow(), [vec![vec![8.0, 2.0], vec![0.5]]]);
    let broken = |m: &[f64], r: usize, c: usize| {
        if r == 1 {
            Err(failure("no convergence"))
        } else {
            diagonal_svd(m, r, c)
        }
    };
    assert_eq!(run(&broken), Err(failure("no convergence")));
    assert_eq!(seen.borrow().len(), 1);
}

#[test]
fn polar_factors_multiply_to_the_sector() {
    let roots = |values: &Vec<f64>| -> Vec<f64> { values.iter().map(|v| v.sqrt()).collect() };
    let stage = diagonal_svd(&[9.0, 0.0, 0.0, 4.0, 0.0, 0.0], 2, 3).unwrap();
    let (w, p) = checked_generic_polar_products(
        &stage,
        2,
        3,
        &[3.0, 2.0],
        PolarDirection::Right,
        0.5,
        &|a: f64, b: f64| a + b,
        &|a: f64, b: f64| a * b,
        &|value: f64| value,
        &matmul,
    )
    .unwrap();
    assert_eq!(w, [1.0, 0.0, 0.0, 1.0, 0.0, 0.0]);
    assert_eq!(p, [9.0, 0.0, 0.0, 4.0]);

    let source = space(&[(0, 3, 2), (1, 1, 1)], true);
    let positive = space(&[(0, 2, 2), (1, 1, 1)], true);
    let data = [9.0, 0.0, 0.0, 0.0, 4.0, 0.0, 25.0];
    let run = |positive: &MapSpace| {
        polar_by_sector_dyn_into(
            &source,
            &data,
            &source,
            positive,
            PolarDirection::Left,
            0.0,
            0.5,
            &diagonal_svd,
            &roots,
            &|a: f64, b: f64| a + b,
            &|a: f64, b: f64| a * b,
            &|value: f64| value,
            &matmul,
        )
    };
    let (w, p) = run(&positive).unwrap();
    assert_eq!(w, [1.0, 0.0, 0.0, 0.0, 1.0, 0.0, 1.0]);
    assert_eq!(p, [9.0, 0.0, 0.0, 4.0, 25.0]);
    let unplanned = space(&[(0, 2, 2), (1, 1, 1)], false);
    assert_eq!(
        run(&unplanned),
        Err(OperationError::UnsupportedTensorContractScope {
            message: "polar requires canonical coupled-sector P storage"
        })
    );
}

#[test]
fn sectors_are_factored_in_order_until_one_fails() {
    let matrices =
        vec![matrix(0, 1, 1, &[1.0]), matrix(1, 1, 2, &[2.0, 3.0]), matrix(2, 0, 0, &[])];
    let input = InputMatricizations::Packed(matrices);
    let count = |m: &[f64], r: usize, c: usize| Ok((m.len(), r, c));
    assert_eq!(sector_stages(&input, &count).unwrap(), [(1, 1, 1), (2, 1, 2), (0, 0, 0)]);
    let fail_on_two = |m: &[f64], _: usize, c: usize| {
        if c == 2 {
            Err(failure("stop"))
        } else {
            Ok(m.to_vec())
        }
    };
    assert_eq!(sector_stages(&input, &fail_on_two), Err(failure("stop")));
    assert_eq!(
        stages_until_failure(&input, &fail_on_two),
        (vec![vec![1.0]], Some(failure("stop")))
    );
    let data = [5.0, 6.0];
    let short =
        InputMatricizations::Regions {
            data: &data,
            regions: vec![region(0, 1, 2, 0), region(1, 1, 1, 2)],
        };
    assert_eq!(
        stages_until_failure(&short, &|m: &[f64], _: usize, _: usize| Ok(m.to_vec())),
        (
            vec![vec![5.0, 6.0]],
            Some(OperationError::ElementCountMismatch { expected: 3, actual: 2 })
        )
    );
}

#[test]
fn routes_of_rank_zero_are_passed_over() {
    let route = |source_region: usize, rank: usize| CompactFactorRoute {
        source_region,
        left_region: Some(0),
        right_region: Some(0),
        sector: SectorId::new(0),
        rank,
    };
    let source = [region(0, 1, 2, 0), region(1, 1, 1, 2)];
    let data = [5.0, 6.0, 7.0];
    let copy = |m: &[f64], _: usize, _: usize| Ok(m.to_vec());
    let routes = [route(1, 1), route(9, 0), route(0, 1)];
    assert_eq!(
        route_stages(&routes, &source, &data, &copy).unwrap(),
        [Some(vec![7.0]), None, Some(vec![5.0, 6.0])]
    );
    assert_eq!(
        route_stages(&routes, &source, &data[..2], &copy),
        Err(OperationError::ElementCountMismatch { expected: 3, actual: 2 })
    );
}

#[test]
fn stages_become_pairs_and_spectra() {
    let matrices = [matrix(3, 2, 1, &[0.0; 2]), matrix(4, 1, 1, &[0.0])];
    let stage = |left: usize, right: usize| RouteFactors {
        left: vec![1.0; left],
        right: vec![2.0; right],
    };
    for (bond, kept) in
        [(BondExtent::Compact, 1), (BondExtent::Rows, 2), (BondExtent::Cols, 1)]
    {
        let pairs = bond_pairs(&matrices, vec![stage(4, 2)], bond);
        assert_eq!(
            pairs,
            [FactorPair {
                sector: SectorId::new(3),
                kept,
                left: vec![1.0; 4],
                left_rows: 2,
                right: vec![2.0; 2],
                right_leading: kept,
            }]
        );
    }
    let svd = SvdStage { u: vec![1.0], values: vec![9], vt: vec![2.0] };
    let (factors, values) = split_stages(vec![None, Some(svd)]);
    assert_eq!(factors, [stage(0, 0), stage(1, 1)]);
    assert_eq!(values, [vec![], vec![9]]);
    assert_eq!(
        label_spectra(&matrices, values),
        [
            SectorSpectrum { sector: SectorId::new(3), values: vec![] },
            SectorSpectrum { sector: SectorId::new(4), values: vec![9] },
        ]
    );
    let ranks = compact_bond_leg(&matrices);
    assert_eq!((ranks[0].kept, ranks[1].kept), (1, 1));
}

/// A fake QR that records what it was given and returns marked factors.
fn marked_qr(
    asked: &RefCell<Vec<Vec<f64>>>,
    matrix: &[f64],
    rows: usize,
    cols: usize,
) -> Result<QrStage<f64>, OperationError> {
    asked.borrow_mut().push(matrix.to_vec());
    let rank = rows.min(cols);
    Ok(QrStage {
        q: (0..rows * rank).map(|k| 10.0 + k as f64).collect(),
        r: (0..rank * cols).map(|k| 20.0 + k as f64).collect(),
    })
}

#[test]
fn bases_are_completed_beside_an_identity() {
    let asked = RefCell::new(Vec::new());
    let qr = |m: &[f64], r: usize, c: usize| marked_qr(&asked, m, r, c);
    let full = orthonormal_completion(&[1.0, 2.0], 2, 1, 0.0, 1.0, &qr).unwrap();
    assert_eq!(full, [1.0, 2.0, 12.0, 13.0]);
    assert_eq!(asked.borrow().as_slice(), [vec![1.0, 2.0, 1.0, 0.0, 0.0, 1.0]]);
    let whole = orthonormal_completion(&[3.0], 1, 1, 0.0, 1.0, &qr).unwrap();
    assert_eq!(whole, [3.0]);
    assert_eq!(asked.borrow().len(), 1);

    let wide = full_qr_numerical_stage(&[1.0, 2.0], 1, 2, 0.0, 1.0, &qr).unwrap();
    assert_eq!((wide.q, wide.r), (vec![10.0], vec![20.0, 21.0]));
    let tall = full_qr_numerical_stage(&[1.0, 2.0], 2, 1, 0.0, 1.0, &qr).unwrap();
    assert_eq!((tall.q, tall.r), (vec![10.0, 11.0, 12.0, 13.0], vec![20.0, 21.0]));
    let broken = |_: &[f64], _: usize, _: usize| -> Result<QrStage<f64>, OperationError> {
        Err(failure("qr"))
    };
    assert_eq!(
        orthonormal_completion(&[1.0, 2.0], 2, 1, 0.0, 1.0, &broken),
        Err(failure("qr"))
    );
}

#[test]
fn full_svds_complete_both_bases() {
    let asked = RefCell::new(Vec::new());
    let qr = |m: &[f64], r: usize, c: usize| marked_qr(&asked, m, r, c);
    let svd = |_: &[f64], _: usize, _: usize| -> Result<SvdStage<f64, f64>, OperationError> {
        Ok(SvdStage { u: vec![1.0, 2.0], values: vec![7.0], vt: vec![5.0] })
    };
    let negate = |value: f64| -value;
    let full =
        full_svd_numerical_stage(&[0.0, 0.0], 2, 1, 0.0, 1.0, &negate, &svd, &qr).unwrap();
    assert_eq!(full.u, [1.0, 2.0, 12.0, 13.0]);
    assert_eq!(full.values, [7.0]);
    // Conjugated twice on its way through the completion.
    assert_eq!(full.vt, [5.0]);
    assert_eq!(asked.borrow().len(), 1);
}

#[test]
fn lq_factors_are_adjoint_qr_factors() {
    let asked = RefCell::new(Vec::new());
    let qr = |m: &[f64], r: usize, c: usize| marked_qr(&asked, m, r, c);
    let negate = |value: f64| -value;
    let factors =
        lq_by_adjoint(&[1.0, 2.0], 1, 2, BondExtent::Compact, &negate, &qr).unwrap();
    assert_eq!(asked.borrow().as_slice(), [vec![-1.0, -2.0]]);
    assert_eq!(factors.left, [-20.0]);
    assert_eq!(factors.right, [-10.0, -11.0]);
}

#[test]
fn rows_and_columns_take_their_factors() {
    let multiply = |a: i64, b: i64| a * b;
    assert_eq!(scale_rows(vec![1, 2, 3, 4], 2, 2, &[10, 100], &multiply), [10, 200, 30, 400]);
    assert_eq!(scale_cols(vec![1, 2, 3, 4], 2, 2, &[10, 100], &multiply), [10, 20, 300, 400]);
}

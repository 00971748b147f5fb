//! Routes between coupled-sector regions, and the plans built on them.

use tenet_matrixalgebra::direct::{
    eigh_full_direct_regions, lq_compact_direct_regions, qr_compact_direct_regions,
    svd_compact_direct_regions, RouteFactors,
};
use tenet_matrixalgebra::error::OperationError;
use tenet_matrixalgebra::factor::SectorRank;
use tenet_matrixalgebra::factor_routes::{
    build_compact_factor_plan, compact_bond_leg, compile_compact_factor_routes,
    compile_polar_region_routes, prepare_compact_factor_plan_generic_checked,
    source_factor_tree_extents_match, PolarRegionRoute,
};
use tenet_matrixalgebra::geometry::{CoupledSectorRegion, SectorMatricization, TreeExtent};
use tenet_matrixalgebra::input::{canonical_generic_sector_regions, data_region};
use tenet_matrixalgebra::polar::{plan_polar, validate_polar_direction, PolarDirection};
use tenet_matrixalgebra::bond::BondDimensions;
use tenet_matrixalgebra::routes::{
    compile_inverse_region_routes, compile_pinv_region_routes, sector_region_index_map,
    validate_region_range, InverseSectorRoute, SectorRegionIndex,
};
use tenet_matrixalgebra::sector::{FusionTreeKey, SectorId};
use tenet_matrixalgebra::sector_solve::{
    plan_matrix_function, plan_pinv, plan_solve_left, plan_square_sectors,
    publish_region_images, publish_reordered_images, sector_jobs, SquareOperation, SquarePlan,
};
use tenet_matrixalgebra::solve_routes::{
    compile_inverse_basis_extents, compile_inverse_matrix_routes,
    compile_solve_left_region_routes, reorder_inverse_solution, InverseBasisExtent,
    SolveLeftSectorRoute,
};
use tenet_matrixalgebra::space::{FusionProductSpace, FusionTreeHomSpace, MapSpace, SectorLeg};
use tenet_matrixalgebra::structure::BlockStructure;

fn sector(id: usize) -> SectorId {
    SectorId::new(id)
}

fn leaf(id: usize, vertex: usize) -> FusionTreeKey {
    FusionTreeKey {
        uncoupled: vec![sector(id)],
        coupled: sector(id),
        is_dual: vec![false],
        innerlines: Vec::new(),
        vertices: vec![vertex],
    }
}

fn span(id: usize, vertex: usize, offset: usize, extent: usize) -> TreeExtent {
    TreeExtent {
        tree: leaf(id, vertex),
        offset,
        shape: vec![extent],
    }
}

/// A region of `rows x cols` elements with one tree on each side.
fn region(id: usize, rows: usize, cols: usize, start: usize) -> CoupledSectorRegion {
    CoupledSectorRegion {
        coupled: sector(id),
        rows,
        cols,
        start,
        end: start + rows * cols,
        row_trees: vec![span(id, 1, 0, rows)],
        col_trees: vec![span(id, 2, 0, cols)],
    }
}

fn transposed(region: &CoupledSectorRegion, start: usize) -> CoupledSectorRegion {
    CoupledSectorRegion {
        coupled: region.coupled,
        rows: region.cols,
        cols: region.rows,
        start,
        end: start + region.rows * region.cols,
        row_trees: region.col_trees.clone(),
        col_trees: region.row_trees.clone(),
    }
}

fn scope(message: &'static str) -> OperationError {
    OperationError::UnsupportedTensorContractScope { message }
}

#[test]
fn region_index_finds_sectors_in_any_order() {
    let ascending = [region(1, 1, 1, 0), region(4, 1, 1, 1), region(9, 1, 1, 2)];
    let index = SectorRegionIndex::new(&ascending).unwrap();
    assert_eq!(
        [0, 1, 4, 5, 9].map(|id| index.get(sector(id))),
        [None, Some(0), Some(1), None, Some(2)]
    );
    let mixed = [region(4, 1, 1, 0), region(9, 1, 1, 1), region(1, 1, 1, 2)];
    let index = SectorRegionIndex::new(&mixed).unwrap();
    assert_eq!(
        [1, 4, 9, 7].map(|id| index.get(sector(id))),
        [Some(2), Some(0), Some(1), None]
    );
    let map = sector_region_index_map(&mixed).unwrap();
    assert_eq!(map.get(sector(9)), Some(1));
    assert_eq!(map.get(sector(0)), None);
    let repeated = [region(4, 1, 1, 0), region(4, 1, 1, 1)];
    let refusal = scope("coupled-sector region description contains a duplicate sector");
    assert_eq!(SectorRegionIndex::new(&repeated).err(), Some(refusal.clone()));
    assert_eq!(sector_region_index_map(&repeated).err(), Some(refusal));
}

#[test]
fn ranges_end_inside_their_buffers() {
    let part = region(1, 2, 2, 3);
    assert_eq!(validate_region_range(&part, 7), Ok(()));
    assert_eq!(
        validate_region_range(&part, 6),
        Err(OperationError::ElementCountMismatch {
            expected: 7,
            actual: 6
        })
    );
    assert_eq!(data_region(&[1, 2, 3, 4], 1, 3).unwrap(), [2, 3]);
    assert!(data_region(&[1, 2, 3, 4], 1, 5).is_err());
}

#[test]
fn inverse_routes_pair_transposed_squares() {
    let source = [region(0, 2, 2, 0), region(1, 3, 3, 4)];
    let output = [transposed(&source[1], 0), transposed(&source[0], 9)];
    let routes = compile_inverse_region_routes(&source, &output, 13, 13).unwrap();
    assert_eq!(
        routes,
        [
            InverseSectorRoute {
                source: 0,
                output: 1
            },
            InverseSectorRoute {
                source: 1,
                output: 0
            }
        ]
    );
    let pinv = compile_pinv_region_routes(&source, &output, 13, 13).unwrap();
    assert_eq!(pinv, routes);
    // The routes of the way back undo them.
    let back = compile_pinv_region_routes(&output, &source, 13, 13).unwrap();
    for route in &routes {
        assert_eq!(back[route.output].output, route.source);
    }
    assert_eq!(sector_jobs(&routes, &source), routes);

    assert_eq!(
        compile_inverse_region_routes(&source, &output[..1], 13, 13),
        Err(scope("inverse output is missing a source coupled sector"))
    );
    assert_eq!(
        compile_inverse_region_routes(&source[..1], &output, 13, 13),
        Err(scope(
            "inverse output contains a coupled sector absent from the source"
        ))
    );
    assert_eq!(
        compile_inverse_region_routes(&source, &output, 12, 13),
        Err(OperationError::ElementCountMismatch {
            expected: 13,
            actual: 12
        })
    );
    let wide = [region(0, 2, 3, 0)];
    assert_eq!(
        compile_inverse_region_routes(&wide, &[transposed(&wide[0], 0)], 6, 6),
        Err(scope("inverse coupled-sector matrix is not square"))
    );
    assert_eq!(
        compile_inverse_region_routes(&source[..1], &source[..1], 4, 4),
        Err(scope(
            "inverse output tree basis does not transpose the source basis"
        ))
    );
    assert_eq!(
        compile_pinv_region_routes(&wide, &wide, 6, 6),
        Err(scope(
            "pinv output does not transpose the source coupled-sector layout"
        ))
    );
    assert_eq!(
        compile_pinv_region_routes(&wide, &[], 6, 6),
        Err(scope("pinv output is missing a source coupled sector"))
    );
    assert_eq!(
        compile_pinv_region_routes(&[], &wide, 6, 6),
        Err(scope(
            "pinv output contains a coupled sector absent from the source"
        ))
    );
}

/// Divisor, right-hand side and output of a solve in one sector.
fn solve_regions(id: usize, order: usize, cols: usize) -> [CoupledSectorRegion; 3] {
    let divisor = region(id, order, order, 0);
    let mut rhs = region(id, order, cols, 0);
    rhs.row_trees = divisor.row_trees.clone();
    rhs.col_trees = vec![span(id, 3, 0, cols)];
    let mut output = region(id, order, cols, 0);
    output.row_trees = divisor.col_trees.clone();
    output.col_trees = rhs.col_trees.clone();
    [divisor, rhs, output]
}

#[test]
fn solve_routes_match_three_regions() {
    let [divisor, rhs, output] = solve_regions(3, 2, 5);
    let compile = |divisor: &CoupledSectorRegion,
                   rhs: &CoupledSectorRegion,
                   output: &CoupledSectorRegion| {
        compile_solve_left_region_routes(
            std::slice::from_ref(divisor),
            std::slice::from_ref(rhs),
            std::slice::from_ref(output),
            4,
            10,
            10,
        )
    };
    assert_eq!(
        compile(&divisor, &rhs, &output),
        Ok(vec![SolveLeftSectorRoute {
            divisor: 0,
            rhs: 0,
            output: 0
        }])
    );
    assert_eq!(
        compile(&divisor, &output, &rhs),
        Err(scope("solve coupled-sector tree bases are incompatible"))
    );
    let [_, short, _] = solve_regions(3, 2, 4);
    assert_eq!(
        compile(&divisor, &short, &output),
        Err(scope(
            "solve coupled-sector matrix dimensions are incompatible"
        ))
    );
    let one = std::slice::from_ref(&output);
    assert_eq!(
        compile_solve_left_region_routes(&[], std::slice::from_ref(&rhs), one, 4, 10, 10),
        Err(scope("solve divisor is missing an output coupled sector"))
    );
    assert_eq!(
        compile_solve_left_region_routes(std::slice::from_ref(&divisor), &[], one, 4, 10, 10),
        Err(scope(
            "solve right-hand side is missing an output coupled sector"
        ))
    );
    assert_eq!(
        compile_solve_left_region_routes(
            std::slice::from_ref(&divisor),
            std::slice::from_ref(&rhs),
            &[],
            4,
            10,
            10
        ),
        Err(scope(
            "solve right-hand side contains a sector absent from the output"
        ))
    );
}

/// Compact factors of `rows x cols` sectors.
fn compact_regions(
    shapes: &[(usize, usize, usize)],
) -> (
    Vec<CoupledSectorRegion>,
    Vec<CoupledSectorRegion>,
    Vec<CoupledSectorRegion>,
) {
    let mut source = Vec::new();
    let mut left = Vec::new();
    let mut right = Vec::new();
    let (mut at, mut left_at, mut right_at) = (0, 0, 0);
    for &(id, rows, cols) in shapes {
        let rank = rows.min(cols);
        let from = region(id, rows, cols, at);
        at += rows * cols;
        if rank > 0 {
            let mut l = region(id, rows, rank, left_at);
            l.row_trees = from.row_trees.clone();
            l.col_trees = vec![span(id, 9, 0, rank)];
            left_at += rows * rank;
            let mut r = region(id, rank, cols, right_at);
            r.row_trees = vec![span(id, 9, 0, rank)];
            r.col_trees = from.col_trees.clone();
            right_at += rank * cols;
            left.push(l);
            right.push(r);
        }
        source.push(from);
    }
    (source, left, right)
}

#[test]
fn compact_routes_pair_sectors_and_skip_empty_ones() {
    let (source, mut left, right) = compact_regions(&[(0, 2, 3), (1, 0, 2), (2, 2, 1)]);
    left.reverse();
    assert_eq!(
        compact_bond_leg(&source),
        [(0, 2), (1, 0), (2, 1)].map(|(id, kept)| SectorRank {
            sector: sector(id),
            kept
        })
    );
    let routes = compile_compact_factor_routes(&source, &left, &right).unwrap();
    assert_eq!(
        routes
            .iter()
            .map(|route| (
                route.sector.id(),
                route.rank,
                route.left_region,
                route.right_region
            ))
            .collect::<Vec<_>>(),
        [
            (0, 2, Some(1), Some(0)),
            (1, 0, None, None),
            (2, 1, Some(0), Some(1))
        ]
    );
    // Sector 1 has a source region and no factor region.
    assert!(!source_factor_tree_extents_match(&source, &left, &right));
    assert!(source_factor_tree_extents_match(&source[..1], &left, &right));
    assert_eq!(
        build_compact_factor_plan(&Some(source.clone()), &Some(left.clone()), &Some(right.clone())),
        Ok(Some(routes.clone()))
    );
    assert_eq!(
        prepare_compact_factor_plan_generic_checked(&None, &Some(left.clone()), &None),
        Ok(None)
    );
    assert_eq!(
        build_compact_factor_plan(&Some(source.clone()), &None, &Some(right.clone())),
        Err(scope(
            "compact left factor is not a coupled-sector matrix layout"
        ))
    );
    assert_eq!(
        build_compact_factor_plan(&Some(source.clone()), &Some(left.clone()), &None),
        Err(scope(
            "compact right factor is not a coupled-sector matrix layout"
        ))
    );
    assert_eq!(
        compile_compact_factor_routes(&source, &left[..1], &right),
        Err(scope("compact left factor is missing a nonzero-rank sector"))
    );
    assert_eq!(
        compile_compact_factor_routes(&source, &left, &right[..1]),
        Err(scope(
            "compact right factor is missing a nonzero-rank sector"
        ))
    );
    assert_eq!(
        compile_compact_factor_routes(&source[..2], &left, &right[..1]),
        Err(scope("compact left factor contains an unused nonzero sector"))
    );
    let mut wrong = left.clone();
    wrong[0].rows += 1;
    assert_eq!(
        compile_compact_factor_routes(&source, &wrong, &right),
        Err(scope("compact left sector region has an unexpected shape"))
    );
    let mut wrong = right.clone();
    wrong[0].cols += 1;
    assert_eq!(
        compile_compact_factor_routes(&source, &left, &wrong),
        Err(scope("compact right sector region has an unexpected shape"))
    );

    // The factors of the routes go to their regions.
    let factors = |tag: i64| {
        vec![
            RouteFactors {
                left: vec![tag; 4],
                right: vec![tag + 1; 6],
            },
            RouteFactors {
                left: Vec::new(),
                right: Vec::new(),
            },
            RouteFactors {
                left: vec![tag + 2; 2],
                right: vec![tag + 3; 1],
            },
        ]
    };
    let (left_data, right_data) = qr_compact_direct_regions(&routes, factors(10), 2, 2, 6, 7);
    assert_eq!(left_data, [12, 12, 10, 10, 10, 10]);
    assert_eq!(right_data, [11, 11, 11, 11, 11, 11, 13]);
    let (left_again, right_again, spectra) = svd_compact_direct_regions(
        &routes,
        factors(10),
        vec![vec![5, 4], Vec::new(), vec![3]],
        2,
        2,
        6,
        7,
    );
    assert_eq!((left_again, right_again), (left_data, right_data));
    assert_eq!(
        spectra
            .iter()
            .map(|entry| (entry.sector.id(), entry.values.clone()))
            .collect::<Vec<_>>(),
        [(0, vec![5, 4]), (1, vec![]), (2, vec![3])]
    );
}

#[test]
fn eigenvectors_go_to_their_regions() {
    let (source, left, right) = compact_regions(&[(0, 2, 2), (1, 1, 1)]);
    let mut swapped = vec![left[1].clone(), left[0].clone()];
    swapped[0].start = 0;
    swapped[0].end = 1;
    swapped[1].start = 1;
    swapped[1].end = 5;
    let routes = compile_compact_factor_routes(&source, &swapped, &right).unwrap();
    let (vectors, spectra) = eigh_full_direct_regions(
        &routes,
        vec![vec![1, 2, 3, 4], vec![9]],
        vec![vec![7, 6], vec![5]],
        &swapped,
        5,
    );
    assert_eq!(vectors, [9, 1, 2, 3, 4]);
    assert_eq!(spectra[1].values, [5]);
}

#[test]
fn lq_routes_adjoin_both_factors() {
    let (source, left, right) = compact_regions(&[(0, 1, 2)]);
    let routes = compile_compact_factor_routes(&source, &left, &right).unwrap();
    // Of the adjoint: an isometry of two rows and a triangle of one element.
    let factors = [RouteFactors {
        left: vec![5],
        right: vec![7, 8],
    }];
    let negate = |value: i64| -value;
    let (l, q) =
        lq_compact_direct_regions(&routes, &factors, &source, &left, &right, 1, 2, &negate, 0);
    assert_eq!(l, [-5]);
    assert_eq!(q, [-7, -8]);
}

#[test]
fn polar_routes_keep_layouts() {
    let source = [region(0, 3, 2, 0)];
    let w = [region(0, 3, 2, 0)];
    let mut p = region(0, 2, 2, 0);
    p.row_trees = source[0].col_trees.clone();
    p.col_trees = source[0].col_trees.clone();
    let p = [p];
    assert_eq!(
        compile_polar_region_routes(&source, &w, &p, 6, 6, 4, PolarDirection::Left),
        Ok(vec![PolarRegionRoute {
            source: 0,
            w: 0,
            p: 0
        }])
    );
    assert_eq!(
        compile_polar_region_routes(&source, &w, &p, 6, 6, 4, PolarDirection::Right),
        Err(scope(
            "polar P route does not preserve the source full-tree layout"
        ))
    );
    assert_eq!(
        compile_polar_region_routes(&source, &p, &p, 6, 6, 4, PolarDirection::Left),
        Err(scope(
            "polar W route does not preserve the source full-tree layout"
        ))
    );
    assert_eq!(
        compile_polar_region_routes(&[], &w, &p, 6, 6, 4, PolarDirection::Left),
        Err(scope(
            "polar output contains a full-tree route absent from the source"
        ))
    );
}

#[test]
fn polar_directions_ask_for_tall_or_wide_sectors() {
    let mut rows = BondDimensions::new();
    let mut cols = BondDimensions::new();
    rows.insert(sector(0), 3);
    cols.insert(sector(0), 2);
    assert!(PolarDirection::Left.accepts(3, 2));
    assert!(!PolarDirection::Right.accepts(3, 2));
    assert_eq!(
        validate_polar_direction(&rows, &cols, PolarDirection::Left, PolarDirection::Left),
        Ok(())
    );
    assert_eq!(
        validate_polar_direction(&rows, &cols, PolarDirection::Right, PolarDirection::Right),
        Err(OperationError::InvalidArgument {
            message: "right_polar requires columns >= rows in every coupled-sector matrix"
        })
    );
    cols.insert(sector(4), 1);
    assert_eq!(
        validate_polar_direction(&rows, &cols, PolarDirection::Left, PolarDirection::Right),
        Err(PolarDirection::Right.error())
    );
}

#[test]
fn bases_are_matched_by_tree() {
    let source = [span(1, 1, 0, 2), span(1, 2, 2, 3)];
    let output = [span(1, 2, 0, 3), span(1, 1, 3, 2)];
    let extents = compile_inverse_basis_extents(&source, &output).unwrap();
    assert_eq!(
        extents,
        [
            InverseBasisExtent {
                source_offset: 0,
                output_offset: 3,
                extent: 2
            },
            InverseBasisExtent {
                source_offset: 2,
                output_offset: 0,
                extent: 3
            }
        ]
    );
    assert_eq!(
        compile_inverse_basis_extents(&source, &output[..1]),
        Err(scope("inverse output is missing a source tree basis"))
    );
    assert_eq!(
        compile_inverse_basis_extents(&source[..1], &output),
        Err(scope(
            "inverse output contains a tree basis absent from the source"
        ))
    );
    assert_eq!(
        compile_inverse_basis_extents(&source[..1], &[span(1, 1, 0, 4)]),
        Err(scope("inverse output tree basis has an unexpected shape"))
    );
    assert_eq!(
        compile_inverse_basis_extents(&source, &[span(1, 1, 0, 2), span(1, 1, 2, 2)]),
        Err(scope("inverse output contains a duplicate tree basis"))
    );
    let mut huge = span(1, 1, 0, 2);
    huge.shape = vec![usize::MAX, 2];
    assert_eq!(
        compile_inverse_basis_extents(&[huge.clone()], &[huge]),
        Err(OperationError::ElementCountOverflow)
    );

    // A solution of order five, moved into the output order on both sides.
    let solution = (0..25).collect::<Vec<i64>>();
    let mut moved = vec![-1; 25];
    reorder_inverse_solution(&solution, 5, &mut moved, 5, &extents, &extents);
    let place = |k: usize| if k < 2 { k + 3 } else { k - 2 };
    for col in 0..5 {
        for row in 0..5 {
            assert_eq!(
                moved[place(row) + 5 * place(col)],
                solution[row + 5 * col]
            );
        }
    }
}

#[test]
fn packed_matrices_are_routed_by_basis() {
    let matrix = SectorMatricization {
        sector: sector(1),
        rows: 2,
        cols: 2,
        row_trees: vec![span(1, 1, 0, 1), span(1, 2, 1, 1)],
        col_trees: vec![span(1, 3, 0, 1), span(1, 4, 1, 1)],
        data: vec![1, 2, 3, 4],
    };
    let mut output = region(1, 2, 2, 0);
    output.row_trees = vec![span(1, 4, 0, 1), span(1, 3, 1, 1)];
    output.col_trees = vec![span(1, 1, 0, 1), span(1, 2, 1, 1)];
    let matrices = [matrix];
    let routes =
        compile_inverse_matrix_routes(&matrices, std::slice::from_ref(&output), 4).unwrap();
    assert_eq!((routes[0].source, routes[0].output), (0, 0));
    let data = publish_reordered_images(
        &routes,
        &[vec![10, 20, 30, 40]],
        &[2],
        std::slice::from_ref(&output),
        4,
        0,
    );
    assert_eq!(data, [20, 10, 40, 30]);
    assert_eq!(
        compile_inverse_matrix_routes(&matrices, &[], 4),
        Err(scope("inverse output is missing a source coupled sector"))
    );
    assert_eq!(
        compile_inverse_matrix_routes(&matrices, std::slice::from_ref(&output), 3),
        Err(OperationError::ElementCountMismatch {
            expected: 4,
            actual: 3
        })
    );
}

#[test]
fn images_are_published_where_their_regions_start() {
    let regions = [region(0, 1, 2, 3), region(1, 1, 1, 0)];
    assert_eq!(
        publish_region_images(&[0, 1], &[vec![7, 8], vec![9]], &regions, 6, 0),
        [9, 0, 0, 7, 8, 0]
    );
}

#[test]
fn canonical_regions_ascend() {
    let ordered = vec![region(0, 1, 1, 0), region(1, 1, 1, 1)];
    assert_eq!(
        canonical_generic_sector_regions(Some(ordered.clone())),
        Some(ordered.clone())
    );
    let reversed = ordered.into_iter().rev().collect::<Vec<_>>();
    assert_eq!(canonical_generic_sector_regions(Some(reversed)), None);
    let mut twice = region(0, 2, 1, 0);
    twice.row_trees = vec![span(0, 2, 0, 1), span(0, 1, 1, 1)];
    assert_eq!(canonical_generic_sector_regions(Some(vec![twice])), None);
    assert_eq!(canonical_generic_sector_regions(None), None);
}

fn leg(id: usize, kept: usize) -> SectorLeg {
    SectorLeg::new(vec![SectorRank {
        sector: sector(id),
        kept,
    }])
}

fn map_space(
    codomain: Vec<SectorLeg>,
    domain: Vec<SectorLeg>,
    regions: Option<Vec<CoupledSectorRegion>>,
    len: usize,
) -> MapSpace {
    let (nout, nin) = (codomain.len(), domain.len());
    MapSpace {
        rule_identity: Some(1),
        provider: 7,
        homspace: FusionTreeHomSpace {
            codomain: FusionProductSpace { legs: codomain },
            domain: FusionProductSpace { legs: domain },
        },
        nout,
        nin,
        rank: nout + nin,
        structure: BlockStructure::new(Vec::new(), len).unwrap(),
        regions,
    }
}

#[test]
fn pinv_plans_check_their_output() {
    let from = region(0, 2, 3, 0);
    let to = transposed(&from, 0);
    let source = map_space(vec![leg(0, 2)], vec![leg(0, 3)], Some(vec![from]), 6);
    let output = map_space(vec![leg(0, 3)], vec![leg(0, 2)], Some(vec![to]), 6);
    assert_eq!(
        plan_pinv(&source, &output, 6),
        Ok(vec![InverseSectorRoute {
            source: 0,
            output: 0
        }])
    );
    let mut other = output.clone();
    other.rule_identity = None;
    assert_eq!(
        plan_pinv(&source, &other, 6),
        Err(OperationError::MissingFusionRuleIdentity)
    );
    other.rule_identity = Some(2);
    assert_eq!(
        plan_pinv(&source, &other, 6),
        Err(OperationError::FusionRuleMismatch {
            expected: 1,
            actual: 2
        })
    );
    let mut other = output.clone();
    other.provider = 8;
    assert_eq!(
        plan_pinv(&source, &other, 6),
        Err(OperationError::StructureMismatch {
            tensor: "pinv output provider authority"
        })
    );
    assert_eq!(
        plan_pinv(&source, &source, 6),
        Err(OperationError::StructureMismatch {
            tensor: "pinv output space"
        })
    );
    let mut other = output.clone();
    other.regions = None;
    assert_eq!(
        plan_pinv(&source, &other, 6),
        Err(scope("pinv requires canonical coupled-sector output storage"))
    );
    let mut other = source.clone();
    other.regions = None;
    assert_eq!(
        plan_pinv(&other, &output, 6),
        Err(scope("pinv requires canonical coupled-sector input storage"))
    );
}

#[test]
fn solve_plans_check_their_spaces() {
    let [by, side, to] = solve_regions(0, 2, 3);
    let divisor = map_space(vec![leg(0, 2)], vec![leg(0, 2)], Some(vec![by]), 4);
    let rhs = map_space(vec![leg(0, 2)], vec![leg(0, 3)], Some(vec![side]), 6);
    let output = map_space(vec![leg(0, 2)], vec![leg(0, 3)], Some(vec![to]), 6);
    assert_eq!(
        plan_solve_left(&divisor, &rhs, &output, 4, 6),
        Ok(vec![SolveLeftSectorRoute {
            divisor: 0,
            rhs: 0,
            output: 0
        }])
    );
    let mut other = rhs.clone();
    other.homspace.codomain.legs[0] = leg(0, 5);
    assert_eq!(
        plan_solve_left(&divisor, &other, &output, 4, 6),
        Err(scope(
            "solve requires equal divisor and right-hand-side codomains"
        ))
    );
    let mut other = divisor.clone();
    other.regions = Some(vec![region(0, 2, 1, 0)]);
    assert_eq!(
        plan_solve_left(&other, &rhs, &output, 4, 6),
        Err(scope("solve coupled-sector divisor matrices must be square"))
    );
    other.regions = None;
    assert_eq!(
        plan_solve_left(&other, &rhs, &output, 4, 6),
        Err(scope("solve requires canonical coupled-sector divisor storage"))
    );
    let mut other = rhs.clone();
    other.regions = None;
    assert_eq!(
        plan_solve_left(&divisor, &other, &output, 4, 6),
        Err(scope(
            "solve requires canonical coupled-sector right-hand-side storage"
        ))
    );
    let mut other = output.clone();
    other.regions = None;
    assert_eq!(
        plan_solve_left(&divisor, &rhs, &other, 4, 6),
        Err(scope(
            "solve derived output requires canonical coupled-sector storage"
        ))
    );
    let mut other = output.clone();
    other.nin = 2;
    assert_eq!(
        plan_solve_left(&divisor, &rhs, &other, 4, 6),
        Err(OperationError::StructureMismatch {
            tensor: "solve output space"
        })
    );
}

#[test]
fn square_plans_route_regions() {
    let from = region(0, 2, 2, 0);
    let to = transposed(&from, 0);
    let source = map_space(vec![leg(0, 2)], vec![leg(0, 2)], Some(vec![from]), 4);
    let output = map_space(vec![leg(0, 2)], vec![leg(0, 2)], Some(vec![to]), 4);
    let data = [1, 2, 3, 4];
    let plan =
        plan_square_sectors(&source, &data, &output, SquareOperation::Inverse, 0).unwrap();
    assert!(matches!(plan, SquarePlan::Regions(routes) if routes.len() == 1));
    assert!(plan_matrix_function(&source, &data, &output, 0).is_ok());
    let mut other = output.clone();
    other.regions = None;
    assert_eq!(
        plan_square_sectors(&source, &data, &other, SquareOperation::Inverse, 0).err(),
        Some(scope(
            "inverse derived output requires canonical coupled-sector storage"
        ))
    );
    assert_eq!(
        plan_matrix_function(&source, &data, &other, 0).err(),
        Some(scope(
            "matrix function output requires canonical coupled-sector storage"
        ))
    );
    let mut other = output.clone();
    other.homspace.codomain.legs[0] = leg(1, 2);
    assert_eq!(
        plan_matrix_function(&source, &data, &other, 0).err(),
        Some(scope("matrix function output must preserve the input homspace"))
    );
}

#[test]
fn polar_plans_need_regions() {
    let from = region(0, 3, 2, 0);
    let mut square = region(0, 2, 2, 0);
    square.row_trees = from.col_trees.clone();
    square.col_trees = from.col_trees.clone();
    let source = map_space(vec![leg(0, 3)], vec![leg(0, 2)], Some(vec![from.clone()]), 6);
    let w = map_space(vec![leg(0, 3)], vec![leg(0, 2)], Some(vec![from]), 6);
    let p = map_space(vec![leg(0, 2)], vec![leg(0, 2)], Some(vec![square]), 4);
    assert_eq!(
        plan_polar(&source, &w, &p, 6, PolarDirection::Left),
        Ok(vec![PolarRegionRoute {
            source: 0,
            w: 0,
            p: 0
        }])
    );
    let without = |space: &MapSpace| {
        let mut space = space.clone();
        space.regions = None;
        space
    };
    assert_eq!(
        plan_polar(&without(&source), &w, &p, 6, PolarDirection::Left),
        Err(scope("polar requires canonical coupled-sector input storage"))
    );
    assert_eq!(
        plan_polar(&source, &without(&w), &p, 6, PolarDirection::Left),
        Err(scope("polar requires canonical coupled-sector W storage"))
    );
    assert_eq!(
        plan_polar(&source, &w, &without(&p), 6, PolarDirection::Left),
        Err(scope("polar requires canonical coupled-sector P storage"))
    );
}

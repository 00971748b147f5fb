//! What fits a layout or a route, and what does not.

use tenet_matrixalgebra::bond::BondDimensions;
use tenet_matrixalgebra::compact_fits::compact_scatter_is_inside;
use tenet_matrixalgebra::direct::RouteFactors;
use tenet_matrixalgebra::eigen_drive::{
    checked_square_publication_is_inside, square_publication_is_inside, square_scatter_is_inside,
};
use tenet_matrixalgebra::eigen_full::EigenStage;
use tenet_matrixalgebra::factor::{FactorPair, FactorPlacement};
use tenet_matrixalgebra::factor_routes::CompactFactorRoute;
use tenet_matrixalgebra::fits::{
    block_reads_inside, both_reads_are_inside, checked_reads_are_inside, distinct_sectors,
    matrix_is_inside, reads_are_inside,
};
use tenet_matrixalgebra::full::FullSvdStage;
use tenet_matrixalgebra::geometry::{CoupledSectorRegion, SectorMatricization, TreeExtent};
use tenet_matrixalgebra::keys::staged_fusion_tree_keys;
use tenet_matrixalgebra::layout::FactorSide;
use tenet_matrixalgebra::layout_fits::{
    are_bond_blocks, block_is_inside, blocks_are_stackable, diagonals_are_covered,
    factor_reads_are_inside, pair_publication_is_inside, pair_reads_are_inside, scaled_legs_exist,
    slices_are_inside,
};
use tenet_matrixalgebra::null::RankedBasis;
use tenet_matrixalgebra::pair::SectorFactor;
use tenet_matrixalgebra::region_fits::{
    compact_regions_are_inside, eigen_regions_are_inside, lq_regions_are_inside,
    sources_are_named,
};
use tenet_matrixalgebra::route_fits::{
    bases_are_complete, left_regions_are_filled, lq_routes_are_inside, region_factors_fit,
    region_vectors_fit, regions_are_held, regions_are_laid_out, routes_are_within,
};
use tenet_matrixalgebra::sector::{FusionTreeKey, FusionTreePairKey, SectorId};
use tenet_matrixalgebra::shapes::{labelled_pair_is_inside, side_is_inside, FactorShape};
use tenet_matrixalgebra::sides::Publication;
use tenet_matrixalgebra::spectrum::SectorSpectrum;
use tenet_matrixalgebra::stage_fits::{
    checked_eigen_stages_are_inside, checked_stages_are_inside, diagonal_is_inside,
    eigen_stages_are_inside, full_stages_are_inside,
};
use tenet_matrixalgebra::stages::BondExtent;
use tenet_matrixalgebra::structure::{Block, BlockKey, BlockStructure};

fn leaf(id: usize) -> FusionTreeKey {
    FusionTreeKey {
        uncoupled: vec![SectorId::new(id)],
        coupled: SectorId::new(id),
        is_dual: vec![false],
        innerlines: Vec::new(),
        vertices: Vec::new(),
    }
}

fn block(id: usize, shape: &[usize]) -> Block {
    let mut strides = Vec::new();
    let mut stride = 1;
    for &dimension in shape {
        strides.push(stride);
        stride *= dimension;
    }
    Block {
        key: BlockKey::FusionTree(FusionTreePairKey { codomain: leaf(id), domain: leaf(id) }),
        shape: shape.to_vec(),
        strides,
        offset: 0,
    }
}

fn single(id: usize, shape: &[usize]) -> BlockStructure {
    BlockStructure::new(vec![block(id, shape)], shape.iter().product()).unwrap()
}

fn trees(id: usize, dimension: usize) -> Vec<TreeExtent> {
    vec![TreeExtent { tree: leaf(id), offset: 0, shape: vec![dimension] }]
}

fn matrix(id: usize, rows: usize, cols: usize) -> SectorMatricization<i64> {
    SectorMatricization {
        sector: SectorId::new(id),
        rows,
        cols,
        row_trees: trees(id, rows),
        col_trees: trees(id, cols),
        data: vec![0; rows * cols],
    }
}

fn region(id: usize, rows: usize, cols: usize, start: usize, end: usize) -> CoupledSectorRegion {
    CoupledSectorRegion {
        coupled: SectorId::new(id),
        rows,
        cols,
        start,
        end,
        row_trees: trees(id, rows),
        col_trees: trees(id, cols),
    }
}

fn pair(id: usize, left: usize, left_rows: usize, right: usize, leading: usize) -> FactorPair<i64> {
    FactorPair {
        sector: SectorId::new(id),
        kept: 2,
        left: vec![0; left],
        left_rows,
        right: vec![0; right],
        right_leading: leading,
    }
}

fn route(region: Option<usize>, rank: usize) -> CompactFactorRoute {
    CompactFactorRoute {
        source_region: 0,
        left_region: region,
        right_region: region,
        sector: SectorId::new(0),
        rank,
    }
}

fn factors(left: usize, right: usize) -> RouteFactors<i64> {
    RouteFactors { left: vec![0; left], right: vec![0; right] }
}

#[test]
fn a_block_fits_where_its_last_element_does() {
    let left = FactorSide::Left;
    let right = FactorSide::Right;
    // Three rows behind one, two bond columns of a leading dimension of four.
    assert!(block_reads_inside(&block(0, &[3, 2]), left, 4, 1, 8));
    assert!(!block_reads_inside(&block(0, &[3, 2]), left, 4, 1, 7));
    // Three bond rows, two columns behind one.
    assert!(block_reads_inside(&block(0, &[3, 2]), right, 4, 1, 11));
    assert!(!block_reads_inside(&block(0, &[3, 2]), right, 4, 1, 10));
    // Nothing is read of an empty block, and a left factor has a bond axis.
    assert!(block_reads_inside(&block(0, &[0, 2]), left, 4, 1, 0));
    assert!(!block_reads_inside(&block(0, &[]), left, 4, 0, 9));
    assert!(block_reads_inside(&block(0, &[]), right, 4, 8, 9));
    assert!(!block_reads_inside(&block(0, &[]), right, 4, 9, 9));
    // What cannot be added up does not fit.
    assert!(!block_reads_inside(&block(0, &[3, 2]), left, usize::MAX, 1, usize::MAX));
    assert!(!block_reads_inside(&block(0, &[3, 2]), left, 4, usize::MAX, usize::MAX));
}

#[test]
fn a_matrix_fits_where_its_last_element_does() {
    assert!(matrix_is_inside(2, 3, 4, 10));
    assert!(!matrix_is_inside(2, 3, 4, 9));
    assert!(matrix_is_inside(0, 3, 4, 0));
    assert!(!matrix_is_inside(2, 3, usize::MAX, usize::MAX));
}

#[test]
fn strided_blocks_fit_where_their_last_element_does() {
    assert!(block_is_inside(&[2, 2], &[1, 3], 1, 6));
    assert!(!block_is_inside(&[2, 2], &[1, 3], 1, 5));
    assert!(!block_is_inside(&[2, 2], &[1], 0, 9));
    assert!(!block_is_inside(&[3, 2], &[usize::MAX, 1], 0, usize::MAX));
}

#[test]
fn outputs_are_read_inside_the_factors_of_their_sectors() {
    let (left, right) = (FactorSide::Left, FactorSide::Right);
    let output = single(0, &[2, 2]);
    let matrices = [matrix(0, 2, 2)];
    assert!(distinct_sectors(&matrices));
    let twice = [matrix(0, 2, 2), matrix(0, 2, 2)];
    assert!(!distinct_sectors(&twice));

    let fitting = [pair(0, 4, 2, 4, 2)];
    let short = [pair(0, 3, 2, 3, 2)];
    let foreign = [pair(5, 0, 0, 0, 0)];
    let bond = BondDimensions::of_pairs(&fitting);
    assert!(both_reads_are_inside(
        &output, &output, &matrices, &fitting, &bond, &bond, left, right
    ));
    assert!(!both_reads_are_inside(
        &output, &output, &matrices, &short, &bond, &bond, left, right
    ));
    assert!(pair_reads_are_inside(&output, &output, &matrices, &fitting));
    assert!(!pair_reads_are_inside(&output, &output, &matrices, &short));
    for side in [left, right] {
        assert!(reads_are_inside(&output, &matrices, &fitting, &bond, side, side));
        assert!(!reads_are_inside(&output, &matrices, &short, &bond, side, side));
        // A pair without matrix is refused before anything is read.
        assert!(reads_are_inside(&output, &matrices, &foreign, &bond, side, side));
        assert!(!reads_are_inside(&output, &twice, &fitting, &bond, side, side));
        assert!(checked_reads_are_inside(&output, &matrices, &fitting, &bond, side));
        assert!(!checked_reads_are_inside(&output, &matrices, &short, &bond, side));
        let factor = |len: usize| [SectorFactor { data: vec![0i64; len], leading: 2 }];
        assert!(factor_reads_are_inside(&output, &matrices, &factor(4), side));
        assert!(!factor_reads_are_inside(&output, &matrices, &factor(3), side));
    }
}

#[test]
fn stages_fit_as_the_pairs_they_become() {
    let square = single(0, &[2, 2]);
    let matrices = [matrix(0, 2, 2)];
    let eigen = |len: usize| [EigenStage { values: vec![1, 2], vectors: vec![0i64; len] }];
    assert!(eigen_stages_are_inside(&square, &matrices, &eigen(4)));
    assert!(!eigen_stages_are_inside(&square, &matrices, &eigen(3)));
    let none: [EigenStage<i64, i64>; 0] = [];
    assert!(!eigen_stages_are_inside(&square, &matrices, &none));

    let full = |left: usize, right: usize| {
        [FullSvdStage {
            left: vec![0i64; left],
            left_rows: 2,
            right: vec![0; right],
            right_leading: 2,
            singular_values: vec![1, 1],
        }]
    };
    let orders = BondDimensions::of_pairs(&[pair(0, 4, 2, 4, 2)]);
    assert!(checked_stages_are_inside(
        &square, &square, &square, &matrices, &full(4, 4), &orders, &orders
    ));
    assert!(!checked_stages_are_inside(
        &square, &square, &square, &matrices, &full(4, 3), &orders, &orders
    ));
    for placement in [FactorPlacement::Direct, FactorPlacement::Adjoint] {
        let inside = |left: usize, right: usize, bond: &BlockStructure| {
            full_stages_are_inside(
                &square, &square, bond, &matrices, &full(left, right), &orders, &orders, placement,
            )
        };
        assert!(inside(4, 4, &square));
        assert!(!inside(3, 4, &square));
        assert!(!inside(4, 3, &square));
        assert!(!inside(4, 4, &single(0, &[2, 2, 1])));
        assert!(inside(4, 4, &single(7, &[2, 2, 1])));
    }
}

#[test]
fn blocks_that_share_a_tree_stack_with_one_extent() {
    let mut other = leaf(0);
    other.vertices = vec![1];
    let mut second = block(0, &[3, 2]);
    second.key = BlockKey::FusionTree(FusionTreePairKey { codomain: leaf(0), domain: other });
    let two = |second: Block| BlockStructure::new(vec![block(0, &[2, 2]), second], 6).unwrap();
    assert!(!blocks_are_stackable(&two(second.clone()), 1));
    second.shape[0] = 2;
    assert!(blocks_are_stackable(&two(second), 1));
    assert!(!blocks_are_stackable(&single(0, &[2, 2]), 3));

    // Another shape of the same extent is as good.
    let mut other = leaf(0);
    other.vertices = vec![1];
    let mut turned = block(0, &[3, 2, 1]);
    turned.key = BlockKey::FusionTree(FusionTreePairKey { codomain: leaf(0), domain: other });
    let blocks = vec![block(0, &[2, 3, 1]), turned];
    assert!(blocks_are_stackable(&BlockStructure::new(blocks, 6).unwrap(), 2));

    // What stands behind a block that is refused does not matter.
    let mut plain = block(0, &[]);
    plain.key = BlockKey::Plain;
    let blocks = vec![block(0, &[2, 2]), plain, block(0, &[]), block(0, &[3, 1])];
    assert!(blocks_are_stackable(&BlockStructure::new(blocks, 4).unwrap(), 1));
}

#[test]
fn nothing_is_asked_of_what_stands_behind_a_refusal() {
    let (left, right) = (FactorSide::Left, FactorSide::Right);
    // The first block has a tree that the source lacks, the second a factor that
    // is too short.
    let mut lacking = block(0, &[2, 2]);
    let mut unknown = leaf(0);
    unknown.vertices = vec![7];
    lacking.key =
        BlockKey::FusionTree(FusionTreePairKey { codomain: unknown.clone(), domain: unknown });
    let output = BlockStructure::new(vec![lacking.clone(), block(0, &[2, 2])], 4).unwrap();
    let behind = BlockStructure::new(vec![block(0, &[2, 2]), lacking], 4).unwrap();
    let matrices = [matrix(0, 2, 2)];
    let short = [pair(0, 3, 2, 3, 2)];
    let bond = BondDimensions::of_pairs(&short);
    for side in [left, right] {
        assert!(reads_are_inside(&output, &matrices, &short, &bond, side, side));
        assert!(!reads_are_inside(&behind, &matrices, &short, &bond, side, side));
        assert!(checked_reads_are_inside(&behind, &matrices, &short, &bond, side));
        let factor = [SectorFactor { data: vec![0i64; 3], leading: 2 }];
        assert!(factor_reads_are_inside(&output, &matrices, &factor, side));
        assert!(!factor_reads_are_inside(&behind, &matrices, &factor, side));
    }
    assert!(both_reads_are_inside(&output, &behind, &matrices, &short, &bond, &bond, left, right));
    assert!(pair_reads_are_inside(&output, &behind, &matrices, &short));
    assert!(!pair_reads_are_inside(&behind, &output, &matrices, &short));
    let keys = staged_fusion_tree_keys(&behind);
    assert!(pair_publication_is_inside(&behind, &keys, &behind, &keys, &matrices, &short));
    let square = single(0, &[2, 2]);
    let keys = staged_fusion_tree_keys(&square);
    assert!(!pair_publication_is_inside(&square, &keys, &square, &keys, &matrices, &short));

    let eigen = [EigenStage { values: vec![1, 2], vectors: vec![0i64; 3] }];
    assert!(eigen_stages_are_inside(&output, &matrices, &eigen));
    assert!(!eigen_stages_are_inside(&behind, &matrices, &eigen));
    assert!(checked_eigen_stages_are_inside(&behind, &matrices, &eigen));

    let full = single(0, &[2, 2]);
    let sliced = BlockStructure::new(vec![block(1, &[2, 2]), block(0, &[4, 4])], 16).unwrap();
    assert!(slices_are_inside(&full, &sliced, 4));
}

#[test]
fn compact_factors_fit_before_they_are_computed() {
    let square = single(0, &[2, 2]);
    let wide = single(0, &[2, 3]);
    let matrices = [matrix(0, 2, 3)];
    assert!(compact_scatter_is_inside::<i64, _>(&square, &wide, &matrices));
    assert!(!compact_scatter_is_inside::<i64, _>(&wide, &wide, &matrices));
    let compact = FactorShape::Bond(BondExtent::Compact);
    let plain = Publication::Plain(FactorPlacement::Direct);
    let mut bond = BondDimensions::new();
    bond.insert(SectorId::new(0), 2);
    let fits = |structure: &BlockStructure, shape: FactorShape, side: FactorSide| {
        side_is_inside::<i64, _>(structure, &matrices, shape, &bond, side, plain)
    };
    assert!(fits(&square, compact, FactorSide::Left));
    assert!(fits(&wide, compact, FactorSide::Right));
    assert!(!fits(&single(0, &[2, 4]), compact, FactorSide::Right));
    // The left factor of a full LQ is as wide as its source.
    assert!(!fits(&wide, compact, FactorSide::Left));
    assert!(fits(&wide, FactorShape::Bond(BondExtent::Cols), FactorSide::Left));
    let cubic = single(0, &[3, 3]);
    assert!(fits(&cubic, FactorShape::Square(FactorPlacement::Direct), FactorSide::Right));
    assert!(!fits(&cubic, FactorShape::Square(FactorPlacement::Direct), FactorSide::Left));
    assert!(fits(&cubic, FactorShape::Square(FactorPlacement::Adjoint), FactorSide::Left));
    let labelled = |left: &BlockStructure, right: &BlockStructure| {
        labelled_pair_is_inside::<i64, _>(left, right, &matrices, BondExtent::Compact)
    };
    assert!(labelled(&square, &wide));
    assert!(!labelled(&wide, &wide));
    let twice = [matrix(0, 2, 3), matrix(0, 2, 3)];
    let side = FactorSide::Left;
    assert!(!side_is_inside::<i64, _>(&square, &twice, compact, &bond, side, plain));
    assert!(diagonal_is_inside::<f64, _>(&wide, &matrices));
    assert!(!diagonal_is_inside::<f64, _>(&single(0, &[2]), &matrices));
    assert!(diagonal_is_inside::<f64, _>(&single(1, &[2]), &matrices));

    assert!(square_scatter_is_inside::<i64, _>(&square, &matrices));
    assert!(!square_scatter_is_inside::<i64, _>(&wide, &matrices));
    assert!(square_publication_is_inside::<i64, i64, _>(&square, &matrices));
    assert!(!square_publication_is_inside::<i64, i64, _>(&wide, &matrices));
    assert!(checked_square_publication_is_inside::<i64, i64, _>(&square, &matrices));
    assert!(!checked_square_publication_is_inside::<i64, i64, _>(&wide, &matrices));

    let source = [region(0, 2, 3, 0, 6)];
    let routes = [route(Some(0), 2)];
    assert!(sources_are_named(&routes, &source));
    assert!(!sources_are_named(&routes, &[]));
    assert!(compact_regions_are_inside::<i64>(&routes, &source, 1, 1, 4, 6));
    assert!(!compact_regions_are_inside::<i64>(&routes, &source, 1, 1, 3, 6));
    assert!(!compact_regions_are_inside::<i64>(&routes, &source, 1, 1, 4, 5));
    assert!(!compact_regions_are_inside::<i64>(&routes, &source, 0, 1, 4, 6));
    assert!(eigen_regions_are_inside::<i64>(&routes, &source, 1, 4));
    assert!(!eigen_regions_are_inside::<i64>(&routes, &source, 1, 3));
    let left = [region(0, 2, 2, 0, 4)];
    let right = [region(0, 2, 3, 0, 6)];
    assert!(lq_regions_are_inside(&routes, &source, &left, &right, 4, 6));
    assert!(!lq_regions_are_inside(&routes, &source, &left, &right, 4, 5));
    assert!(!lq_regions_are_inside(&[route(Some(0), 1)], &source, &left, &right, 4, 6));
}

#[test]
fn spectra_stand_on_matrix_blocks_that_they_cover() {
    let spectrum = |id: usize, len: usize| {
        [SectorSpectrum { sector: SectorId::new(id), values: vec![0i64; len] }]
    };
    let bond = single(0, &[2, 3]);
    assert!(are_bond_blocks(&bond, &spectrum(0, 1)));
    assert!(!diagonals_are_covered(&bond, &spectrum(0, 1)));
    assert!(diagonals_are_covered(&bond, &spectrum(0, 2)));
    let deep = single(0, &[2, 3, 1]);
    assert!(!are_bond_blocks(&deep, &spectrum(0, 2)));
    assert!(are_bond_blocks(&deep, &spectrum(4, 2)));
}

#[test]
fn slices_lie_inside_their_blocks() {
    let full = single(0, &[2, 3]);
    assert!(slices_are_inside(&full, &single(0, &[2, 2]), 6));
    assert!(!slices_are_inside(&full, &single(0, &[2, 2]), 3));
    assert!(!slices_are_inside(&full, &single(0, &[2, 4]), 6));
    assert!(slices_are_inside(&full, &single(1, &[2, 4]), 6));
}

#[test]
fn scaled_legs_have_sectors() {
    assert!(scaled_legs_exist(&single(0, &[2, 3]), 1, None));
    assert!(scaled_legs_exist(&single(0, &[2, 3]), 1, Some(0)));
    assert!(!scaled_legs_exist(&single(0, &[2, 3]), 1, Some(2)));
    assert!(!scaled_legs_exist(&single(0, &[2, 3, 4]), 1, None));
}

#[test]
fn routes_name_regions_and_their_first_factor_fits() {
    let routes = [route(Some(1), 2), route(None, 0), route(Some(0), 1)];
    assert!(routes_are_within(&routes, 2, 2));
    assert!(!routes_are_within(&routes, 1, 2));
    assert!(!routes_are_within(&routes, 2, 1));
    assert!(!routes_are_within(&[route(None, 1)], 2, 2));

    // The factor of the first region comes first, whatever the route's place.
    let parts = [factors(9, 9), factors(0, 0), factors(3, 4)];
    assert!(region_factors_fit(&routes, &parts, FactorSide::Left, 2, 3));
    assert!(!region_factors_fit(&routes, &parts, FactorSide::Left, 2, 2));
    assert!(region_factors_fit(&routes, &parts, FactorSide::Right, 2, 4));
    assert!(!region_factors_fit(&routes, &parts, FactorSide::Right, 2, 3));
    assert!(region_factors_fit(&routes, &parts, FactorSide::Left, 0, 0));
    let vectors = [vec![0i64; 9], Vec::new(), vec![0; 3]];
    assert!(region_vectors_fit(&routes, &vectors, 2, 3));
    assert!(!region_vectors_fit(&routes, &vectors, 2, 2));
}

#[test]
fn routes_fill_the_regions_that_have_elements() {
    let left = [region(0, 1, 1, 0, 1), region(1, 0, 0, 1, 1), region(2, 1, 1, 1, 2)];
    assert!(left_regions_are_filled(&[route(Some(2), 1), route(Some(0), 1)], &left));
    assert!(!left_regions_are_filled(&[route(Some(0), 1)], &left));
    assert!(!left_regions_are_filled(&[route(Some(0), 1), route(Some(0), 1)], &left));
    let empty_too = [route(Some(0), 1), route(Some(1), 1), route(Some(2), 1)];
    assert!(!left_regions_are_filled(&empty_too, &left));
    assert!(!left_regions_are_filled(&[route(None, 1)], &left));
}

#[test]
fn lq_factors_have_the_shapes_of_their_regions() {
    let source = [region(0, 2, 3, 0, 6)];
    let left = [region(0, 2, 2, 1, 5)];
    let right = [region(0, 2, 3, 0, 6)];
    let inside = |left_size: usize, right_size: usize, left_len: usize| {
        let routes = [route(Some(0), 2)];
        let parts = [factors(left_size, right_size)];
        lq_routes_are_inside(&routes, &parts, &source, &left, &right, left_len, 6)
    };
    assert!(inside(4, 6, 5));
    assert!(!inside(3, 6, 5));
    assert!(!inside(4, 5, 5));
    assert!(!inside(4, 6, 4));
    let none: [RouteFactors<i64>; 0] = [];
    assert!(!lq_routes_are_inside(&[route(Some(0), 2)], &none, &source, &left, &right, 5, 6));
}

#[test]
fn bases_are_complete_where_null_directions_are_left() {
    let matrices = [matrix(0, 3, 2)];
    let ranked = |rank: usize, len: usize| [RankedBasis { rank, basis: vec![0i64; len] }];
    let (left, right) = (FactorSide::Left, FactorSide::Right);
    assert!(bases_are_complete(&matrices, &ranked(2, 9), left));
    assert!(!bases_are_complete(&matrices, &ranked(2, 6), left));
    assert!(!bases_are_complete(&matrices, &ranked(4, 9), left));
    assert!(bases_are_complete(&matrices, &ranked(2, 0), right));
    let none: [RankedBasis<i64>; 0] = [];
    assert!(!bases_are_complete(&matrices, &none, left));
}

#[test]
fn regions_hold_their_matrices_and_trees() {
    let held = [region(0, 2, 3, 1, 7)];
    assert!(regions_are_held(&held));
    assert!(regions_are_laid_out(&held));
    assert!(!regions_are_held(&[region(0, 2, 3, 1, 8)]));
    assert!(!regions_are_held(&[region(0, usize::MAX, 2, 0, 0)]));
    let mut outside = region(0, 2, 3, 1, 7);
    outside.row_trees[0].offset = 1;
    assert!(regions_are_held(std::slice::from_ref(&outside)));
    assert!(!regions_are_laid_out(&[outside]));
    let mut wide = region(0, 2, 3, 1, 7);
    wide.col_trees[0].shape = vec![2, 2];
    assert!(!regions_are_laid_out(&[wide]));
}

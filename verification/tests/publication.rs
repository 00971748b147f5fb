//! Matricization of fusion-tree blocks and publication of sector factors.

use num_complex::Complex64;
use std::cell::Cell;
use std::fmt::Debug;

use tenet_matrixalgebra::bond::BondDimensions;
use tenet_matrixalgebra::canonical::{
    factor_output_is_canonical, one_sided_factor_output_is_canonical,
};
use tenet_matrixalgebra::error::OperationError;
use tenet_matrixalgebra::factor::{
    publish_generic_factor_pairs, FactorPair, FactorPlacement, SectorRank,
};
use tenet_matrixalgebra::geometry::{
    CoupledSectorRegion, Geometry, SectorGeometry, SectorMatricization, TreeExtent,
};
use tenet_matrixalgebra::input::generic_input_matricizations;
use tenet_matrixalgebra::keys::validate_generic_factor_keys;
use tenet_matrixalgebra::layout::FactorSide;
use tenet_matrixalgebra::matricize::{sector_matricizations, sector_matricizations_generic};
use tenet_matrixalgebra::pair::{
    build_left_right_bound_pair_generic, build_left_right_bound_pair_generic_checked,
};
use tenet_matrixalgebra::pair_drive::publish_labelled_pair;
use tenet_matrixalgebra::placement::{PlacementIndex, SectorBlockGroups};
use tenet_matrixalgebra::publish::{
    build_bound_factor_generic_checked, build_bound_factor_with_placement,
};
use tenet_matrixalgebra::sector::{FusionTreeKey, FusionTreePairKey, SectorId};
use tenet_matrixalgebra::sides::DriveError;
use tenet_matrixalgebra::space::{FusionProductSpace, FusionTreeHomSpace, MapSpace, SectorLeg};
use tenet_matrixalgebra::structure::{Block, BlockKey, BlockStructure};
use tenet_matrixalgebra::truncate::sliced_bond_data;

trait Scalar: Copy + PartialEq + Debug {
    fn zero() -> Self;
    fn one() -> Self;
}

impl Scalar for f64 {
    fn zero() -> f64 {
        0.0
    }

    fn one() -> f64 {
        1.0
    }
}

impl Scalar for Complex64 {
    fn zero() -> Complex64 {
        Complex64::new(0.0, 0.0)
    }

    fn one() -> Complex64 {
        Complex64::new(1.0, 0.0)
    }
}

/// A sector matrix that counts how often one of its trees is read.
struct Counted<'a, M> {
    matrix: &'a M,
    reads: &'a Cell<usize>,
}

impl<M: SectorGeometry> SectorGeometry for Counted<'_, M> {
    fn geometry(&self) -> Geometry {
        unreachable!()
    }

    fn sector(&self) -> SectorId {
        self.matrix.sector()
    }

    fn rows(&self) -> usize {
        self.matrix.rows()
    }

    fn cols(&self) -> usize {
        self.matrix.cols()
    }

    fn tree_count(&self, side: FactorSide) -> usize {
        self.matrix.tree_count(side)
    }

    fn tree(&self, side: FactorSide, index: usize) -> Option<&TreeExtent> {
        self.reads.set(self.reads.get() + 1);
        self.matrix.tree(side, index)
    }
}

fn counted<'a, M>(matrices: &'a [M], reads: &'a Cell<usize>) -> Vec<Counted<'a, M>> {
    matrices.iter().map(|matrix| Counted { matrix, reads }).collect()
}

/// Fusion rules: cyclic groups, and one rule whose sector 1 fuses with itself
/// into sector 0 once and into sector 1 twice.
#[derive(Clone, Copy)]
enum Rule {
    Cyclic(usize),
    Generic,
}

impl Rule {
    fn channels(self, left: usize, right: usize) -> Vec<(usize, usize)> {
        match self {
            Rule::Cyclic(order) => vec![((left + right) % order, 1)],
            Rule::Generic => match (left, right) {
                (0, sector) | (sector, 0) => vec![(sector, 1)],
                (1, 1) => vec![(0, 1), (1, 2)],
                _ => Vec::new(),
            },
        }
    }
}

type Leg = Vec<(usize, usize)>;

#[derive(Clone)]
struct Hom {
    codomain: Vec<Leg>,
    domain: Vec<Leg>,
}

impl Hom {
    fn adjoint(&self) -> Hom {
        Hom {
            codomain: self.domain.clone(),
            domain: self.codomain.clone(),
        }
    }

    fn factor(&self, bond: Leg, side: FactorSide) -> Hom {
        match side {
            FactorSide::Left => Hom {
                codomain: self.codomain.clone(),
                domain: vec![bond],
            },
            FactorSide::Right => Hom {
                codomain: vec![bond],
                domain: self.domain.clone(),
            },
        }
    }
}

fn sector(id: usize) -> SectorId {
    SectorId::new(id)
}

fn ids(sectors: &[usize]) -> Vec<SectorId> {
    sectors.iter().map(|&id| sector(id)).collect()
}

fn tree(
    uncoupled: &[usize],
    coupled: usize,
    is_dual: &[bool],
    innerlines: &[usize],
    vertices: &[usize],
) -> FusionTreeKey {
    FusionTreeKey {
        uncoupled: ids(uncoupled),
        coupled: sector(coupled),
        is_dual: is_dual.to_vec(),
        innerlines: ids(innerlines),
        vertices: vertices.to_vec(),
    }
}

fn pair_key(codomain: FusionTreeKey, domain: FusionTreeKey) -> FusionTreePairKey {
    FusionTreePairKey { codomain, domain }
}

fn span(tree: FusionTreeKey, offset: usize, shape: Vec<usize>) -> TreeExtent {
    TreeExtent {
        tree,
        offset,
        shape,
    }
}

fn block(key: FusionTreePairKey, shape: Vec<usize>, strides: Vec<usize>, offset: usize) -> Block {
    Block {
        key: BlockKey::FusionTree(key),
        shape,
        strides,
        offset,
    }
}

/// The structure of these blocks over the shortest buffer that holds them.
fn structure_of(blocks: Vec<Block>) -> BlockStructure {
    let required = blocks
        .iter()
        .filter(|block| block.shape.iter().all(|&dimension| dimension > 0))
        .map(|block| {
            block.offset
                + 1
                + block
                    .shape
                    .iter()
                    .zip(&block.strides)
                    .map(|(&dimension, &stride)| (dimension - 1) * stride)
                    .sum::<usize>()
        })
        .max()
        .unwrap_or(0);
    BlockStructure::new(blocks, required).unwrap()
}

/// All trees over the legs with their degeneracy shapes, by uncoupled sectors,
/// then by inner lines and vertices.
fn trees_of(rule: Rule, legs: &[Leg]) -> Vec<(FusionTreeKey, Vec<usize>)> {
    let mut partial: Vec<(FusionTreeKey, Vec<usize>)> = Vec::new();
    for (axis, leg) in legs.iter().enumerate() {
        let mut next = Vec::new();
        if axis == 0 {
            for &(id, dimension) in leg {
                if dimension > 0 {
                    next.push((tree(&[id], id, &[false], &[], &[]), vec![dimension]));
                }
            }
        } else {
            for (before, shape) in &partial {
                for &(id, dimension) in leg {
                    if dimension == 0 {
                        continue;
                    }
                    for (coupled, multiplicity) in rule.channels(before.coupled.id(), id) {
                        for vertex in 1..=multiplicity {
                            let mut grown = before.clone();
                            grown.uncoupled.push(sector(id));
                            grown.is_dual.push(false);
                            if axis > 1 {
                                grown.innerlines.push(before.coupled);
                            }
                            grown.vertices.push(vertex);
                            grown.coupled = sector(coupled);
                            let mut grown_shape = shape.clone();
                            grown_shape.push(dimension);
                            next.push((grown, grown_shape));
                        }
                    }
                }
            }
        }
        partial = next;
    }
    if legs.is_empty() {
        partial.push((tree(&[], 0, &[], &[], &[]), Vec::new()));
    }
    partial
}

fn extent_of(shape: &[usize]) -> usize {
    shape.iter().product()
}

/// The coupled-sector layout of a hom space: one column-major matrix for each
/// coupled sector, its blocks in the order of the column trees, then the row
/// trees.
fn layout(rule: Rule, hom: &Hom) -> BlockStructure {
    let rows = trees_of(rule, &hom.codomain);
    let cols = trees_of(rule, &hom.domain);
    let mut sectors = rows
        .iter()
        .map(|(tree, _)| tree.coupled.id())
        .collect::<Vec<_>>();
    sectors.sort();
    sectors.dedup();
    let mut blocks = Vec::new();
    let mut start = 0;
    for coupled in sectors {
        let of_sector = |trees: &[(FusionTreeKey, Vec<usize>)]| {
            trees
                .iter()
                .filter(|(tree, _)| tree.coupled.id() == coupled)
                .cloned()
                .collect::<Vec<_>>()
        };
        let rows = of_sector(&rows);
        let cols = of_sector(&cols);
        let height = rows
            .iter()
            .map(|(_, shape)| extent_of(shape))
            .sum::<usize>();
        let mut col_offset = 0;
        for (col_tree, col_shape) in &cols {
            let mut row_offset = 0;
            for (row_tree, row_shape) in &rows {
                let mut shape = row_shape.clone();
                shape.extend_from_slice(col_shape);
                let mut strides = Vec::new();
                let mut stride = 1;
                for &dimension in row_shape {
                    strides.push(stride);
                    stride *= dimension;
                }
                stride = height;
                for &dimension in col_shape {
                    strides.push(stride);
                    stride *= dimension;
                }
                blocks.push(block(
                    pair_key(row_tree.clone(), col_tree.clone()),
                    shape,
                    strides,
                    start + row_offset + height * col_offset,
                ));
                row_offset += extent_of(row_shape);
            }
            col_offset += extent_of(col_shape);
        }
        start += height * col_offset;
    }
    BlockStructure::new(blocks, start).unwrap()
}

fn keys_of(structure: &BlockStructure) -> Vec<FusionTreePairKey> {
    (0..structure.block_count())
        .map(|index| match structure.block(index).key() {
            BlockKey::FusionTree(key) => key.clone(),
            BlockKey::Plain => unreachable!("layouts label every block"),
        })
        .collect()
}

fn bond_leg(dimensions: &BondDimensions) -> Leg {
    (0..dimensions.len())
        .map(|index| dimensions.rank(index))
        .map(|rank| (rank.sector.id(), rank.kept))
        .collect()
}

fn dimensions_of(ranks: &[(usize, usize)]) -> BondDimensions {
    let mut dimensions = BondDimensions::new();
    for &(id, kept) in ranks {
        dimensions.insert(sector(id), kept);
    }
    dimensions
}

fn dimension(dimensions: &BondDimensions, sector: SectorId) -> usize {
    dimensions.get(sector).unwrap()
}

/// The output layout of one factor with the given bond.
fn factor_layout(
    rule: Rule,
    hom: &Hom,
    dimensions: &BondDimensions,
    side: FactorSide,
) -> BlockStructure {
    layout(rule, &hom.factor(bond_leg(dimensions), side))
}

/// The output layouts of both factors of a list of pairs.
fn pair_layouts<D>(
    rule: Rule,
    hom: &Hom,
    pairs: &[FactorPair<D>],
) -> (BlockStructure, BlockStructure) {
    let bond = pairs
        .iter()
        .map(|pair| (pair.sector.id(), pair.kept))
        .collect::<Leg>();
    (
        layout(rule, &hom.factor(bond.clone(), FactorSide::Left)),
        layout(rule, &hom.factor(bond, FactorSide::Right)),
    )
}

fn publish_pair<D: Scalar, M: SectorGeometry>(
    rule: Rule,
    hom: &Hom,
    matrices: &[M],
    pairs: Vec<FactorPair<D>>,
) -> Result<(Vec<D>, Vec<D>), OperationError> {
    let (left, right) = pair_layouts(rule, hom, &pairs);
    build_left_right_bound_pair_generic(
        &left,
        &keys_of(&left),
        &right,
        &keys_of(&right),
        matrices,
        pairs,
        D::zero(),
    )
}

fn publish_pair_checked<D: Scalar, M: SectorGeometry>(
    rule: Rule,
    hom: &Hom,
    matrices: &[M],
    pairs: Vec<FactorPair<D>>,
) -> Result<(Vec<D>, Vec<D>), OperationError> {
    let (left, right) = pair_layouts(rule, hom, &pairs);
    build_left_right_bound_pair_generic_checked(&left, &right, matrices, pairs, D::zero())
}

/// Whether a pair is published by moving its factors.
fn pair_is_canonical<D, M: SectorGeometry>(
    rule: Rule,
    hom: &Hom,
    matrices: &[M],
    pairs: &[FactorPair<D>],
) -> bool {
    let (left, right) = pair_layouts(rule, hom, pairs);
    let ranks = pairs
        .iter()
        .map(|pair| SectorRank {
            sector: pair.sector,
            kept: pair.kept,
        })
        .collect::<Vec<_>>();
    let fits = |side: FactorSide, structure: &BlockStructure| {
        let keys = keys_of(structure);
        validate_generic_factor_keys(&keys, side, matrices, Some(&ranks)).unwrap()
            && factor_output_is_canonical(
                structure,
                Some(&keys),
                matrices,
                pairs,
                structure.required_len(),
                side,
            )
    };
    fits(FactorSide::Left, &left) && fits(FactorSide::Right, &right)
}

fn scope(message: &'static str) -> OperationError {
    OperationError::UnsupportedTensorContractScope { message }
}

fn z2_pair(codomain: [usize; 2], domain: [usize; 2], coupled: usize) -> FusionTreePairKey {
    pair_key(
        tree(&codomain, coupled, &[false; 2], &[], &[1]),
        tree(&domain, coupled, &[false; 2], &[], &[1]),
    )
}

#[test]
fn left_factor_publication_borrows_real_geometry_for_complex_output() {
    let x = sector(1);
    let vacuum = sector(0);
    let source_key = pair_key(
        tree(&[1, 1, 1], 1, &[false; 3], &[0], &[1, 1]),
        tree(&[1], 1, &[false], &[], &[]),
    );
    let hom = Hom {
        codomain: vec![vec![(1, 2)], vec![(1, 1)], vec![(1, 3)]],
        domain: vec![vec![(1, 1)]],
    };
    // A geometry without payload: one tree on each side.
    let geometry = [CoupledSectorRegion {
        coupled: x,
        rows: 6,
        cols: 1,
        start: 0,
        end: 6,
        row_trees: vec![span(source_key.codomain.clone(), 0, vec![2, 1, 3])],
        col_trees: vec![span(source_key.domain.clone(), 0, vec![1])],
    }];
    let row_tree_before = geometry[0].row_trees[0].tree.clone();
    let col_tree_before = geometry[0].col_trees[0].tree.clone();
    let expected = (0..12)
        .map(|index| Complex64::new(index as f64 + 0.5, 10.0 - index as f64))
        .collect::<Vec<_>>();
    let mut pairs = vec![FactorPair {
        sector: x,
        kept: 2,
        left: expected.clone(),
        left_rows: 6,
        right: Vec::new(),
        right_leading: 0,
    }];
    let selected_ptr = pairs[0].left.as_ptr();

    let dimensions = BondDimensions::of_pairs(&pairs);
    let structure = factor_layout(Rule::Cyclic(2), &hom, &dimensions, FactorSide::Left);
    assert!(one_sided_factor_output_is_canonical(
        &structure,
        &geometry,
        &pairs,
        &dimensions,
        structure.required_len(),
        FactorSide::Left,
        FactorSide::Left,
    ));
    let factor = build_bound_factor_with_placement(
        &structure,
        &geometry,
        &mut pairs,
        &dimensions,
        FactorSide::Left,
        FactorPlacement::Direct,
        Complex64::zero(),
        Complex64::one(),
    )
    .unwrap();

    assert!(std::ptr::eq(selected_ptr, factor.as_ptr()));
    assert!(pairs[0].left.is_empty());
    assert_eq!(geometry[0].row_trees[0].tree, row_tree_before);
    assert_eq!(geometry[0].col_trees[0].tree, col_tree_before);
    assert_eq!(geometry[0].row_trees[0].shape, [2, 1, 3]);
    assert_eq!(geometry[0].col_trees[0].shape, [1]);
    let block = structure.block(0);
    assert_eq!(block.shape(), [2, 1, 3, 2]);
    let key = match block.key() {
        BlockKey::FusionTree(key) => key,
        BlockKey::Plain => panic!("left factor must retain the complete fusion-tree key"),
    };
    assert_eq!(key.codomain_tree(), &row_tree_before);
    assert_eq!(key.domain_tree().uncoupled(), &[x]);
    assert_eq!(key.domain_tree().coupled(), x);
    assert!(key.domain_tree().vertices.is_empty());
    assert!(key.domain_tree().innerlines.is_empty());
    assert_eq!(factor.len(), expected.len());
    for bond in 0..2 {
        for third in 0..3 {
            for first in 0..2 {
                let output = block.offset()
                    + first * block.strides()[0]
                    + third * block.strides()[2]
                    + bond * block.strides()[3];
                let matrix_row = first + 2 * third;
                assert_eq!(factor[output], expected[matrix_row + 6 * bond]);
            }
        }
    }
    assert_eq!(vacuum, row_tree_before.innerlines[0]);
}

fn generic_pair(coupled: usize, row_vertex: usize, col_vertex: usize) -> FusionTreePairKey {
    pair_key(
        tree(&[1, 1], coupled, &[false; 2], &[], &[row_vertex]),
        tree(&[1, 1], coupled, &[false; 2], &[], &[col_vertex]),
    )
}

fn full_identity_pair(
    row_inner: usize,
    row_dual: bool,
    col_inner: usize,
    col_dual: bool,
) -> FusionTreePairKey {
    pair_key(
        tree(
            &[1, 2, 3],
            9,
            &[false, row_dual, false],
            &[row_inner],
            &[1, 2],
        ),
        tree(
            &[4, 5, 6],
            9,
            &[true, false, col_dual],
            &[col_inner],
            &[2, 1],
        ),
    )
}

fn sort_trees(trees: &mut Vec<FusionTreeKey>) {
    if trees[1].precedes(&trees[0]) {
        trees.reverse();
    }
}

#[test]
fn packed_and_region_geometry_preserve_dual_and_innerline_tree_identity() {
    let mut row_trees = vec![
        full_identity_pair(7, false, 11, false).codomain,
        full_identity_pair(8, true, 11, false).codomain,
    ];
    let mut col_trees = vec![
        full_identity_pair(7, false, 10, false).domain,
        full_identity_pair(7, false, 11, true).domain,
    ];
    sort_trees(&mut row_trees);
    sort_trees(&mut col_trees);
    assert_ne!(row_trees[0].innerlines, row_trees[1].innerlines);
    assert_ne!(row_trees[0].is_dual, row_trees[1].is_dual);
    assert_ne!(col_trees[0].innerlines, col_trees[1].innerlines);
    assert_ne!(col_trees[0].is_dual, col_trees[1].is_dual);

    let row_shapes = [vec![1, 2, 1], vec![2, 1, 1]];
    let col_shapes = [vec![1, 3, 1], vec![1, 1, 1]];
    let row_extents = row_shapes
        .iter()
        .map(|shape| extent_of(shape))
        .collect::<Vec<_>>();
    let col_extents = col_shapes
        .iter()
        .map(|shape| extent_of(shape))
        .collect::<Vec<_>>();
    let rows = row_extents.iter().sum::<usize>();
    let cols = col_extents.iter().sum::<usize>();
    let mut blocks = Vec::new();
    let mut col_offset = 0;
    for (col, (col_tree, col_shape)) in col_trees.iter().zip(&col_shapes).enumerate() {
        let mut row_offset = 0;
        for (row, (row_tree, row_shape)) in row_trees.iter().zip(&row_shapes).enumerate() {
            let mut shape = row_shape.clone();
            shape.extend_from_slice(col_shape);
            let mut strides = Vec::with_capacity(shape.len());
            let mut stride = 1;
            for &dimension in row_shape {
                strides.push(stride);
                stride *= dimension;
            }
            stride = rows;
            for &dimension in col_shape {
                strides.push(stride);
                stride *= dimension;
            }
            blocks.push(block(
                pair_key(row_tree.clone(), col_tree.clone()),
                shape,
                strides,
                row_offset + rows * col_offset,
            ));
            row_offset += row_extents[row];
        }
        col_offset += col_extents[col];
    }
    let structure = structure_of(blocks);
    let data = (0..rows * cols)
        .map(|value| value as f64)
        .collect::<Vec<_>>();
    let regions = vec![CoupledSectorRegion {
        coupled: sector(9),
        rows,
        cols,
        start: 0,
        end: rows * cols,
        row_trees: vec![
            span(row_trees[0].clone(), 0, row_shapes[0].clone()),
            span(row_trees[1].clone(), 2, row_shapes[1].clone()),
        ],
        col_trees: vec![
            span(col_trees[0].clone(), 0, col_shapes[0].clone()),
            span(col_trees[1].clone(), 3, col_shapes[1].clone()),
        ],
    }];
    let packed = sector_matricizations_generic(&structure, &data, 3, 0.0).unwrap();
    assert_eq!(regions.len(), 1);
    assert_eq!(packed.len(), 1);
    let input =
        generic_input_matricizations(&structure, Some(regions.clone()), &data, 3, 0.0).unwrap();
    assert!(!input.is_packed());
    let region = &regions[0];
    let matrix = &packed[0];
    assert_eq!(matrix.data, data);
    assert_eq!(region.sector(), sector(9));
    assert_eq!((region.rows(), region.cols()), (4, 4));
    assert_eq!(region.sector(), matrix.sector());
    assert_eq!(
        (region.rows(), region.cols()),
        (matrix.rows(), matrix.cols())
    );
    for side in [FactorSide::Left, FactorSide::Right] {
        let (expected_trees, expected_offsets, expected_shapes) = match side {
            FactorSide::Left => (&row_trees, [0, 2], &row_shapes),
            FactorSide::Right => (&col_trees, [0, 3], &col_shapes),
        };
        assert_eq!(region.tree_count(side), matrix.tree_count(side));
        for index in 0..region.tree_count(side) {
            let borrowed = region.tree(side, index).unwrap();
            let owned = matrix.tree(side, index).unwrap();
            assert_eq!(borrowed.tree, expected_trees[index]);
            assert_eq!(borrowed.offset, expected_offsets[index]);
            assert_eq!(borrowed.shape, expected_shapes[index]);
            assert_eq!(owned.tree, expected_trees[index]);
            assert_eq!(owned.offset, expected_offsets[index]);
            assert_eq!(owned.shape, expected_shapes[index]);
            assert_eq!(borrowed.tree, owned.tree);
            assert_eq!(borrowed.offset, owned.offset);
            assert_eq!(borrowed.shape, owned.shape);
        }
    }
}

#[test]
fn sector_matricizations_preserve_encounter_order_and_padded_block_values() {
    let structure = structure_of(vec![
        block(
            z2_pair([0, 1], [1, 0], 1),
            vec![1, 2, 3, 1],
            vec![2, 9, 1, 20],
            3,
        ),
        block(
            z2_pair([0, 0], [1, 1], 0),
            vec![2, 1, 1, 2],
            vec![2, 20, 1, 7],
            30,
        ),
        block(
            z2_pair([0, 0], [0, 0], 0),
            vec![2, 1, 2, 1],
            vec![3, 20, 1, 50],
            50,
        ),
        block(
            z2_pair([1, 1], [1, 1], 0),
            vec![1, 2, 1, 2],
            vec![4, 1, 20, 7],
            70,
        ),
        block(
            z2_pair([1, 1], [0, 0], 0),
            vec![1, 2, 2, 1],
            vec![4, 1, 5, 20],
            90,
        ),
    ]);
    let mut data = vec![0.0; structure.required_len()];
    for (position, value) in [
        (3, 101.0),
        (12, 102.0),
        (4, 103.0),
        (13, 104.0),
        (5, 105.0),
        (14, 106.0),
        (30, 1.0),
        (32, 2.0),
        (37, 5.0),
        (39, 6.0),
        (50, 3.0),
        (53, 4.0),
        (51, 7.0),
        (54, 8.0),
        (70, 9.0),
        (71, 10.0),
        (77, 13.0),
        (78, 14.0),
        (90, 11.0),
        (91, 12.0),
        (95, 15.0),
        (96, 16.0),
    ] {
        data[position] = value;
    }

    let matrices = sector_matricizations::<f64>(&structure, &data, 2, 0.0).unwrap();

    assert_eq!(
        matrices
            .iter()
            .map(|matrix| matrix.sector)
            .collect::<Vec<_>>(),
        [sector(1), sector(0)]
    );
    assert_eq!(matrices[0].rows, 2);
    assert_eq!(matrices[0].cols, 3);
    assert_eq!(matrices[0].data, [101.0, 102.0, 103.0, 104.0, 105.0, 106.0]);
    assert_eq!(
        matrices[0].row_trees,
        vec![span(z2_pair([0, 1], [1, 0], 1).codomain, 0, vec![1, 2])]
    );
    assert_eq!(
        matrices[0].col_trees,
        vec![span(z2_pair([0, 1], [1, 0], 1).domain, 0, vec![3, 1])]
    );

    assert_eq!(matrices[1].rows, 4);
    assert_eq!(matrices[1].cols, 4);
    assert_eq!(
        matrices[1].data,
        [
            1.0, 2.0, 9.0, 10.0, 5.0, 6.0, 13.0, 14.0, 3.0, 4.0, 11.0, 12.0, 7.0, 8.0, 15.0, 16.0,
        ]
    );
    assert_eq!(
        matrices[1].row_trees,
        vec![
            span(z2_pair([0, 0], [1, 1], 0).codomain, 0, vec![2, 1]),
            span(z2_pair([1, 1], [1, 1], 0).codomain, 2, vec![1, 2]),
        ]
    );
    assert_eq!(
        matrices[1].col_trees,
        vec![
            span(z2_pair([0, 0], [1, 1], 0).domain, 0, vec![1, 2]),
            span(z2_pair([0, 0], [0, 0], 0).domain, 2, vec![2, 1]),
        ]
    );
}

fn vertex_entries(trees: &[TreeExtent]) -> Vec<(usize, usize, Vec<usize>)> {
    trees
        .iter()
        .map(|entry| (entry.tree.vertices[0], entry.offset, entry.shape.clone()))
        .collect()
}

#[test]
fn generic_sector_matricizations_preserve_full_tree_identity_and_exact_layout() {
    let structure = structure_of(vec![
        block(
            generic_pair(1, 2, 1),
            vec![1, 2, 2, 1],
            vec![1, 17, 3, 40],
            5,
        ),
        block(
            generic_pair(0, 1, 1),
            vec![1, 1, 1, 1],
            vec![1, 7, 5, 3],
            80,
        ),
        block(
            generic_pair(1, 1, 2),
            vec![1, 1, 1, 3],
            vec![1, 8, 2, 4],
            60,
        ),
        block(
            generic_pair(1, 1, 1),
            vec![1, 1, 2, 1],
            vec![1, 9, 5, 30],
            40,
        ),
    ]);
    let mut real = vec![0.0; structure.required_len()];
    for (index, value) in [
        (5, 11.0),
        (22, 12.0),
        (8, 13.0),
        (25, 14.0),
        (80, 90.0),
        (60, 31.0),
        (64, 32.0),
        (68, 33.0),
        (40, 21.0),
        (45, 22.0),
    ] {
        real[index] = value;
    }
    let expected = [
        11.0, 12.0, 21.0, 13.0, 14.0, 22.0, 0.0, 0.0, 31.0, 0.0, 0.0, 32.0, 0.0, 0.0, 33.0,
    ];

    let matrices = sector_matricizations_generic(&structure, &real, 2, 0.0).unwrap();
    assert_eq!(
        matrices
            .iter()
            .map(|matrix| matrix.sector)
            .collect::<Vec<_>>(),
        [sector(1), sector(0)]
    );
    assert_eq!((matrices[0].rows, matrices[0].cols), (3, 5));
    assert_eq!(matrices[0].data, expected);
    assert_eq!(matrices[1].data, [90.0]);
    assert_eq!(
        vertex_entries(&matrices[0].row_trees),
        [(2, 0, vec![1, 2]), (1, 2, vec![1, 1])]
    );
    assert_eq!(
        vertex_entries(&matrices[0].col_trees),
        [(1, 0, vec![2, 1]), (2, 2, vec![1, 3])]
    );

    let complex = real
        .iter()
        .map(|&value| Complex64::new(value, -value / 10.0))
        .collect::<Vec<_>>();
    let complex_matrices =
        sector_matricizations_generic(&structure, &complex, 2, Complex64::zero()).unwrap();
    assert_eq!(
        complex_matrices[0].data,
        expected.map(|value| Complex64::new(value, -value / 10.0))
    );
    assert_eq!(complex_matrices[1].data, [Complex64::new(90.0, -9.0)]);

    let empty = structure_of(Vec::new());
    assert!(sector_matricizations_generic::<f64>(&empty, &[], 2, 0.0)
        .unwrap()
        .is_empty());

    let scalar_key = pair_key(tree(&[], 0, &[], &[], &[]), tree(&[], 0, &[], &[], &[]));
    let scalar = structure_of(vec![block(scalar_key, vec![], vec![], 1)]);
    assert_eq!(
        sector_matricizations_generic(&scalar, &[0.0, 7.0], 0, 0.0).unwrap()[0].data,
        [7.0]
    );

    let zero_extent = structure_of(vec![block(
        generic_pair(1, 1, 1),
        vec![0, 1, 1, 1],
        vec![1, 1, 1, 1],
        0,
    )]);
    let zero_matrix = sector_matricizations_generic::<f64>(&zero_extent, &[], 2, 0.0).unwrap();
    assert_eq!((zero_matrix[0].rows, zero_matrix[0].cols), (0, 1));
    assert!(zero_matrix[0].data.is_empty());

    let non_fusion = structure_of(vec![Block {
        key: BlockKey::Plain,
        shape: vec![1],
        strides: vec![1],
        offset: 0,
    }]);
    assert!(matches!(
        sector_matricizations_generic::<f64>(&non_fusion, &[1.0], 1, 0.0),
        Err(OperationError::ExpectedFusionTreeBlock {
            tensor: "tsvd",
            index: 0
        })
    ));
}

#[test]
fn generic_sector_matricizations_keep_tree_offsets_matrix_local() {
    // Trees whose coupled sectors differ can be paired. A domain tree shared by
    // two matrices therefore has an independent column offset in each of them.
    let sector_one = generic_pair(1, 1, 1);
    let sector_zero = generic_pair(0, 1, 1);
    let row_one = sector_one.codomain.clone();
    let row_zero = sector_zero.codomain.clone();
    let shared_domain = sector_one.domain.clone();
    let other_domain = sector_zero.domain.clone();
    let structure = structure_of(vec![
        block(
            pair_key(row_one.clone(), other_domain.clone()),
            vec![1, 1, 1, 1],
            vec![1, 1, 1, 1],
            1,
        ),
        block(
            pair_key(row_zero.clone(), shared_domain.clone()),
            vec![1, 1, 1, 2],
            vec![1, 1, 1, 1],
            4,
        ),
        block(
            pair_key(row_one.clone(), shared_domain.clone()),
            vec![1, 1, 1, 2],
            vec![1, 1, 1, 1],
            8,
        ),
    ]);
    let mut data = vec![0.0; structure.required_len()];
    data[1] = 11.0;
    data[4..6].copy_from_slice(&[21.0, 22.0]);
    data[8..10].copy_from_slice(&[31.0, 32.0]);

    let matrices = sector_matricizations_generic(&structure, &data, 2, 0.0).unwrap();

    assert_eq!(matrices.len(), 2);
    assert_eq!(matrices[0].sector, sector(1));
    assert_eq!((matrices[0].rows, matrices[0].cols), (1, 3));
    assert_eq!(matrices[0].data, [11.0, 31.0, 32.0]);
    assert_eq!(
        matrices[0]
            .col_trees
            .iter()
            .map(|entry| (&entry.tree, entry.offset))
            .collect::<Vec<_>>(),
        [(&other_domain, 0), (&shared_domain, 1)]
    );
    assert_eq!(matrices[1].sector, sector(0));
    assert_eq!((matrices[1].rows, matrices[1].cols), (1, 2));
    assert_eq!(matrices[1].data, [21.0, 22.0]);
    assert_eq!(matrices[1].col_trees[0].tree, shared_domain);
    assert_eq!(matrices[1].col_trees[0].offset, 0);
}

fn z2_single_sector_matrix(rows: usize, cols: usize) -> (Hom, SectorMatricization<f64>) {
    let hom = Hom {
        codomain: vec![vec![(0, rows)]],
        domain: vec![vec![(0, cols)]],
    };
    let leg = tree(&[0], 0, &[false], &[], &[]);
    (
        hom,
        SectorMatricization {
            sector: sector(0),
            rows,
            cols,
            row_trees: vec![span(leg.clone(), 0, vec![rows])],
            col_trees: vec![span(leg, 0, vec![cols])],
            data: vec![0.0; rows * cols],
        },
    )
}

#[test]
fn mf_one_sided_placement_uses_direct_and_adjoint_source_sides() {
    let (hom, mut matrix) = z2_single_sector_matrix(2, 3);
    matrix.rows = 3;
    matrix.row_trees[0].offset = 1;
    matrix.cols = 5;
    matrix.col_trees[0].offset = 2;
    matrix.data = Vec::new();
    let adjoint = hom.adjoint();
    let values = |len: usize, base: f64| {
        (0..len)
            .map(|index| Complex64::new(base + index as f64, -base - index as f64 / 10.0))
            .collect::<Vec<_>>()
    };

    let cases = [
        (
            &hom,
            FactorSide::Left,
            FactorPlacement::Direct,
            2,
            FactorPair {
                sector: sector(0),
                kept: 99,
                left: values(6, 10.0),
                left_rows: 3,
                right: Vec::new(),
                right_leading: 0,
            },
            vec![1, 2, 4, 5],
        ),
        (
            &hom,
            FactorSide::Right,
            FactorPlacement::Direct,
            3,
            FactorPair {
                sector: sector(0),
                kept: 99,
                left: Vec::new(),
                left_rows: 0,
                right: values(15, 20.0),
                right_leading: 3,
            },
            (6..15).collect(),
        ),
        (
            &adjoint,
            FactorSide::Left,
            FactorPlacement::Adjoint,
            4,
            FactorPair {
                sector: sector(0),
                kept: 99,
                left: values(20, 30.0),
                left_rows: 5,
                right: Vec::new(),
                right_leading: 0,
            },
            vec![2, 3, 4, 7, 8, 9, 12, 13, 14, 17, 18, 19],
        ),
        (
            &adjoint,
            FactorSide::Right,
            FactorPlacement::Adjoint,
            2,
            FactorPair {
                sector: sector(0),
                kept: 99,
                left: Vec::new(),
                left_rows: 0,
                right: values(6, 40.0),
                right_leading: 2,
            },
            (2..6).collect(),
        ),
    ];

    for (output_hom, side, placement, bond, pair, selected) in cases {
        let source = match side {
            FactorSide::Left => &pair.left,
            FactorSide::Right => &pair.right,
        };
        let expected = selected
            .into_iter()
            .map(|index: usize| source[index])
            .collect::<Vec<_>>();
        let dimensions = dimensions_of(&[(0, bond)]);
        let structure = factor_layout(Rule::Cyclic(2), output_hom, &dimensions, side);
        let factor = build_bound_factor_with_placement(
            &structure,
            std::slice::from_ref(&matrix),
            &mut vec![pair],
            &dimensions,
            side,
            placement,
            Complex64::zero(),
            Complex64::one(),
        )
        .unwrap();
        assert_eq!(factor, expected);
    }
}

#[test]
fn mf_one_sided_pair_errors_precede_tree_traversal() {
    let (hom, mut matrix) = z2_single_sector_matrix(1, 1);
    matrix.row_trees.clear();
    matrix.col_trees.clear();
    let dimensions = dimensions_of(&[(0, 1)]);
    let pair = |sector| FactorPair {
        sector,
        kept: 1,
        left: vec![1.0],
        left_rows: 1,
        right: vec![2.0],
        right_leading: 1,
    };

    let structure = factor_layout(Rule::Cyclic(2), &hom, &dimensions, FactorSide::Left);
    let error = build_bound_factor_with_placement(
        &structure,
        std::slice::from_ref(&matrix),
        &mut vec![pair(sector(0)), pair(sector(1))],
        &dimensions,
        FactorSide::Left,
        FactorPlacement::Direct,
        0.0,
        1.0,
    )
    .unwrap_err();
    assert_eq!(error, scope("factor sector absent from the source tensor"));

    let structure = factor_layout(Rule::Cyclic(2), &hom, &dimensions, FactorSide::Right);
    let error = build_bound_factor_with_placement::<f64, _>(
        &structure,
        std::slice::from_ref(&matrix),
        &mut Vec::new(),
        &dimensions,
        FactorSide::Right,
        FactorPlacement::Direct,
        0.0,
        1.0,
    )
    .unwrap_err();
    assert_eq!(
        error,
        scope("factor rank absent for a populated source sector")
    );
}

#[test]
fn generic_pair_publication_falls_back_for_padded_staged_geometry() {
    let (hom, matrix) = z2_single_sector_matrix(2, 1);
    let pairs = || {
        vec![FactorPair {
            sector: sector(0),
            kept: 1,
            left: vec![2.0, 3.0],
            left_rows: 2,
            right: vec![5.0, 99.0],
            right_leading: 2,
        }]
    };
    let matrices = [matrix];

    let (left, right) = publish_pair(Rule::Generic, &hom, &matrices, pairs()).unwrap();

    assert_eq!(left, [2.0, 3.0]);
    assert_eq!(right, [5.0]);
    assert!(!pair_is_canonical(Rule::Generic, &hom, &matrices, &pairs()));
    let (left_layout, right_layout) = pair_layouts(Rule::Generic, &hom, &pairs());
    assert_eq!((left_layout.block_count(), right_layout.block_count()), (1, 1));
    for (structure, side) in [
        (&left_layout, FactorSide::Left),
        (&right_layout, FactorSide::Right),
    ] {
        assert_eq!(
            SectorBlockGroups::new(structure, side).blocks(sector(0)),
            [0]
        );
    }
}

fn vertex_tree_factor_fixture(
    reverse: bool,
) -> (
    Hom,
    SectorMatricization<Complex64>,
    FactorPair<Complex64>,
) {
    let x = sector(1);
    let hom = Hom {
        codomain: vec![vec![(1, 2)], vec![(1, 1)]],
        domain: vec![vec![(1, 1)], vec![(1, 3)]],
    };
    let of_x = |legs: &[Leg]| {
        trees_of(Rule::Generic, legs)
            .into_iter()
            .map(|(tree, _)| tree)
            .filter(|tree| tree.coupled == x)
            .collect::<Vec<_>>()
    };
    let mut row_trees = of_x(&hom.codomain);
    let mut col_trees = of_x(&hom.domain);
    assert_eq!(row_trees.len(), 2);
    assert_eq!(col_trees.len(), 2);
    for trees in [&row_trees, &col_trees] {
        assert_eq!(
            trees.iter().map(|tree| tree.vertices[0]).collect::<Vec<_>>(),
            [1, 2]
        );
    }
    if reverse {
        row_trees.reverse();
        col_trees.reverse();
    }
    let row_trees = row_trees
        .into_iter()
        .enumerate()
        .map(|(index, tree)| span(tree, 2 * index, vec![2, 1]))
        .collect();
    let col_trees = col_trees
        .into_iter()
        .enumerate()
        .map(|(index, tree)| span(tree, 3 * index, vec![1, 3]))
        .collect();
    let left = (0..8)
        .map(|index| Complex64::new(10.0 + index as f64, -1.0 - index as f64 / 4.0))
        .collect::<Vec<_>>();
    let right = (0..12)
        .map(|index| Complex64::new(30.0 + index as f64, 2.0 + index as f64 / 3.0))
        .collect::<Vec<_>>();
    (
        hom,
        SectorMatricization {
            sector: x,
            rows: 4,
            cols: 6,
            row_trees,
            col_trees,
            data: vec![Complex64::new(0.0, 0.0); 24],
        },
        FactorPair {
            sector: x,
            kept: 2,
            left,
            left_rows: 4,
            right,
            right_leading: 2,
        },
    )
}

#[test]
fn one_sided_row_placement_uses_the_first_matching_duplicate() {
    let a = generic_pair(1, 1, 1).codomain;
    let b = generic_pair(1, 2, 1).codomain;
    let c = generic_pair(0, 1, 1).codomain;
    let matrices = [SectorMatricization {
        sector: sector(1),
        rows: 7,
        cols: 0,
        row_trees: vec![
            span(a.clone(), 0, vec![2]),
            span(b.clone(), 2, vec![2]),
            span(a.clone(), 4, vec![2]),
            span(c.clone(), 6, vec![1]),
        ],
        col_trees: Vec::new(),
        data: Vec::<f64>::new(),
    }];
    let index = PlacementIndex::new(&matrices);
    let offsets = [&b, &c, &a].map(|tree| {
        index
            .placement(sector(1), FactorSide::Left, tree)
            .unwrap()
            .0
    });

    assert_eq!(offsets, [2, 6, 0]);
}

#[test]
fn placement_index_distinguishes_dual_innerline_and_vertex_trees() {
    let base = full_identity_pair(7, false, 11, false);
    let dual = full_identity_pair(7, true, 11, true);
    let inner = full_identity_pair(8, false, 12, false);
    // Same sectors, duals and inner lines as `base`; only the vertices differ.
    let vertex = pair_key(
        tree(&[1, 2, 3], 9, &[false, false, false], &[7], &[2, 2]),
        tree(&[4, 5, 6], 9, &[true, false, false], &[11], &[1, 1]),
    );
    let matrices = [SectorMatricization {
        sector: sector(9),
        rows: 4,
        cols: 4,
        row_trees: vec![
            span(base.codomain.clone(), 0, vec![1]),
            span(dual.codomain.clone(), 1, vec![1]),
            span(inner.codomain.clone(), 2, vec![1]),
            span(vertex.codomain.clone(), 3, vec![1]),
        ],
        col_trees: vec![
            span(base.domain.clone(), 0, vec![1]),
            span(dual.domain.clone(), 1, vec![1]),
            span(inner.domain.clone(), 2, vec![1]),
            span(vertex.domain.clone(), 3, vec![1]),
        ],
        data: Vec::<f64>::new(),
    }];
    let index = PlacementIndex::new(&matrices);
    let nine = sector(9);
    assert_eq!(
        [
            &base.codomain,
            &dual.codomain,
            &inner.codomain,
            &vertex.codomain
        ]
        .map(|tree| index.placement(nine, FactorSide::Left, tree).unwrap().0),
        [0, 1, 2, 3]
    );
    assert_eq!(
        [&base.domain, &dual.domain, &inner.domain, &vertex.domain]
            .map(|tree| index.placement(nine, FactorSide::Right, tree).unwrap().0),
        [0, 1, 2, 3]
    );
    // A domain tree is never a codomain tree of this matrix and vice versa.
    assert_eq!(
        index.placement(nine, FactorSide::Left, &base.domain),
        Err(scope(
            "factor codomain tree absent from the source matricization"
        ))
    );
    assert_eq!(
        index.placement(nine, FactorSide::Right, &base.codomain),
        Err(scope(
            "factor domain tree absent from the source matricization"
        ))
    );
}

fn duplicate_source_trees_case<D: Scalar>(values: impl Fn(usize) -> D) {
    let (hom, single) = z2_single_sector_matrix(2, 3);
    let row = single.row_trees[0].tree.clone();
    let col = single.col_trees[0].tree.clone();
    let matrix = SectorMatricization {
        sector: single.sector,
        rows: 4,
        cols: 6,
        row_trees: vec![span(row.clone(), 0, vec![2]), span(row, 2, vec![2])],
        col_trees: vec![span(col.clone(), 0, vec![3]), span(col, 3, vec![3])],
        data: Vec::<D>::new(),
    };
    let source = (0..12).map(&values).collect::<Vec<_>>();
    let cases: [(FactorSide, usize, usize, Vec<usize>, Vec<usize>); 2] = [
        (FactorSide::Left, 2, 4, vec![0, 1, 4, 5], vec![2, 3, 6, 7]),
        (FactorSide::Right, 2, 2, (0..6).collect(), (6..12).collect()),
    ];
    for (side, bond, leading, first, second) in cases {
        let pair = match side {
            FactorSide::Left => FactorPair {
                sector: sector(0),
                kept: 99,
                left: source.clone(),
                left_rows: leading,
                right: Vec::new(),
                right_leading: 0,
            },
            FactorSide::Right => FactorPair {
                sector: sector(0),
                kept: 99,
                left: Vec::new(),
                left_rows: 0,
                right: source.clone(),
                right_leading: leading,
            },
        };
        let dimensions = dimensions_of(&[(0, bond)]);
        let structure = factor_layout(Rule::Cyclic(2), &hom, &dimensions, side);
        let mut pairs = vec![pair];
        assert!(!one_sided_factor_output_is_canonical(
            &structure,
            std::slice::from_ref(&matrix),
            &pairs,
            &dimensions,
            structure.required_len(),
            side,
            side,
        ));
        let factor = build_bound_factor_with_placement(
            &structure,
            std::slice::from_ref(&matrix),
            &mut pairs,
            &dimensions,
            side,
            FactorPlacement::Direct,
            D::zero(),
            D::one(),
        )
        .unwrap();
        let pick = |indices: &[usize]| indices.iter().map(|&i| source[i]).collect::<Vec<_>>();
        assert_eq!(factor, pick(&first));
        assert_ne!(pick(&first), pick(&second));
    }
}

#[test]
fn mf_one_sided_duplicate_source_trees_publish_the_first_entry() {
    duplicate_source_trees_case(|k| k as f64 + 0.5);
    duplicate_source_trees_case(|k| Complex64::new(k as f64 + 0.5, -(k as f64)));
}

/// Eight charges on every leg: every coupled sector has eight row trees and
/// eight column trees.
fn z8_many_tree_legs() -> [Leg; 4] {
    let all = (0..8).map(|s| (s, 1)).collect::<Leg>();
    [all.clone(), all.clone(), all.clone(), all]
}

fn assert_identity_segment<D: Scalar>(segment: &[D], ones: usize) {
    assert_eq!(segment.iter().filter(|&&v| v == D::one()).count(), ones);
    assert!(segment.iter().all(|&v| v == D::zero() || v == D::one()));
}

/// A hom space of two legs on each side with its sector matrices.
fn two_leg_geometry<D: Scalar>(rule: Rule, legs: [Leg; 4]) -> (Hom, Vec<SectorMatricization<D>>) {
    let [a, b, c, d] = legs;
    let hom = Hom {
        codomain: vec![a, b],
        domain: vec![c, d],
    };
    let structure = layout(rule, &hom);
    let data = vec![D::zero(); structure.required_len()];
    let matrices = sector_matricizations(&structure, &data, 2, D::zero()).unwrap();
    (hom, matrices)
}

fn source_trees_for(side: FactorSide, placement: FactorPlacement) -> FactorSide {
    match (side, placement) {
        (FactorSide::Left, FactorPlacement::Direct)
        | (FactorSide::Right, FactorPlacement::Adjoint) => FactorSide::Left,
        (FactorSide::Right, FactorPlacement::Direct)
        | (FactorSide::Left, FactorPlacement::Adjoint) => FactorSide::Right,
    }
}

fn source_extent<D>(matrix: &SectorMatricization<D>, source_trees: FactorSide) -> usize {
    match source_trees {
        FactorSide::Left => matrix.rows,
        FactorSide::Right => matrix.cols,
    }
}

fn source_dimensions<D>(
    matrices: &[SectorMatricization<D>],
    source_trees: FactorSide,
) -> BondDimensions {
    let mut dimensions = BondDimensions::new();
    for matrix in matrices {
        dimensions.insert(matrix.sector, source_extent(matrix, source_trees));
    }
    dimensions
}

/// Stages `a x b` (left) or `b x a` (right) factors for each sector, with
/// `kept` deliberately unrelated to the bond; the opposite side carries a
/// payload that must survive publication.
fn staged_one_sided_pairs<D: Scalar>(
    matrices: &[SectorMatricization<D>],
    dimensions: &BondDimensions,
    side: FactorSide,
    source_trees: FactorSide,
    values: &dyn Fn(usize) -> D,
) -> Vec<FactorPair<D>> {
    matrices
        .iter()
        .map(|matrix| {
            let a = source_extent(matrix, source_trees);
            let b = dimension(dimensions, matrix.sector);
            let tag = matrix.sector.id() + 1;
            let selected = (0..a * b)
                .map(|k| values(1000 * tag + k))
                .collect::<Vec<_>>();
            let opposite = (0..3).map(|k| values(7 * tag + k)).collect();
            match side {
                FactorSide::Left => FactorPair {
                    sector: matrix.sector,
                    kept: 99,
                    left: selected,
                    left_rows: a,
                    right: opposite,
                    right_leading: 5,
                },
                FactorSide::Right => FactorPair {
                    sector: matrix.sector,
                    kept: 99,
                    left: opposite,
                    left_rows: 5,
                    right: selected,
                    right_leading: b,
                },
            }
        })
        .collect()
}

fn selected_of<D>(pair: &FactorPair<D>, side: FactorSide) -> &Vec<D> {
    match side {
        FactorSide::Left => &pair.left,
        FactorSide::Right => &pair.right,
    }
}

fn opposite_of<D>(pair: &FactorPair<D>, side: FactorSide) -> &Vec<D> {
    match side {
        FactorSide::Left => &pair.right,
        FactorSide::Right => &pair.left,
    }
}

fn assert_buffers_intact<D>(pairs: &[FactorPair<D>], side: FactorSide) {
    assert!(pairs.iter().all(|pair| !selected_of(pair, side).is_empty()));
}

/// Publishes one factor and tells whether its buffers were moved.
fn publish_one_sided<D: Scalar, M: SectorGeometry>(
    structure: &BlockStructure,
    matrices: &[M],
    pairs: &mut Vec<FactorPair<D>>,
    dimensions: &BondDimensions,
    side: FactorSide,
    placement: FactorPlacement,
) -> (Result<Vec<D>, OperationError>, bool) {
    let canonical = one_sided_factor_output_is_canonical(
        structure,
        matrices,
        pairs,
        dimensions,
        structure.required_len(),
        side,
        source_trees_for(side, placement),
    );
    let result = build_bound_factor_with_placement(
        structure,
        matrices,
        pairs,
        dimensions,
        side,
        placement,
        D::zero(),
        D::one(),
    );
    (result, canonical)
}

/// The same with every output key checked against the source first.
fn publish_one_sided_checked<D: Scalar, M: SectorGeometry>(
    structure: &BlockStructure,
    matrices: &[M],
    pairs: &mut Vec<FactorPair<D>>,
    dimensions: &BondDimensions,
    side: FactorSide,
) -> (Result<Vec<D>, OperationError>, bool) {
    let canonical = one_sided_factor_output_is_canonical(
        structure,
        matrices,
        pairs,
        dimensions,
        structure.required_len(),
        side,
        side,
    );
    let result = build_bound_factor_generic_checked(
        structure,
        matrices,
        pairs,
        dimensions,
        side,
        D::zero(),
        D::one(),
    );
    (result, canonical)
}

fn many_tree_fallback_case<D: Scalar>(values: impl Fn(usize) -> D) {
    let fresh = || two_leg_geometry::<D>(Rule::Cyclic(8), z8_many_tree_legs());
    let (hom, matrices) = fresh();
    assert_eq!(matrices.len(), 8);
    assert!(matrices
        .iter()
        .all(|m| m.row_trees.len() == 8 && m.col_trees.len() == 8));
    for (side, placement) in [
        (FactorSide::Left, FactorPlacement::Direct),
        (FactorSide::Right, FactorPlacement::Direct),
    ] {
        let source_trees = source_trees_for(side, placement);
        let dimensions = source_dimensions(&matrices, source_trees);
        let structure = factor_layout(Rule::Cyclic(8), &hom, &dimensions, side);
        let build = |matrices: &[SectorMatricization<D>], pairs: &mut Vec<FactorPair<D>>| {
            let (factor, canonical) =
                publish_one_sided(&structure, matrices, pairs, &dimensions, side, placement);
            (factor.unwrap(), canonical)
        };
        let staged = |matrices: &[SectorMatricization<D>]| {
            staged_one_sided_pairs(matrices, &dimensions, side, source_trees, &values)
        };

        let mut pairs = staged(&matrices);
        let (reference, canonical) = build(&matrices, &mut pairs);
        assert!(canonical);

        // All eight sectors populated, reversed: 64 blocks over 64 trees.
        let (_, mut reversed) = fresh();
        reversed.reverse();
        let mut pairs = staged(&reversed);
        let (data, canonical) = build(&reversed, &mut pairs);
        assert!(!canonical);
        assert_eq!(data, reference);
        assert_eq!(structure.block_count(), 64);
        // Every tree of both sides is entered once, and every block is looked up
        // once: compared in its chain, and read where it was found.
        let reads = Cell::new(0);
        let mut pairs = staged(&reversed);
        let counting = counted(&reversed, &reads);
        let (again, _) =
            publish_one_sided(&structure, &counting, &mut pairs, &dimensions, side, placement);
        assert_eq!(again.unwrap(), reference);
        assert_eq!(reads.get(), 2 * 64 + 2 * 64);

        // Sectors 0 (before), 3 (between) and 7 (after) have no matrix and hold
        // an identity.
        let (_, kept) = fresh();
        let kept = kept
            .into_iter()
            .filter(|m| ![0, 3, 7].contains(&m.sector.id()))
            .collect::<Vec<_>>();
        assert_eq!(
            kept.iter().map(|m| m.row_trees.len()).sum::<usize>(),
            40
        );
        let reads = Cell::new(0);
        let mut pairs = staged(&kept);
        let counting = counted(&kept, &reads);
        let _ = publish_one_sided(&structure, &counting, &mut pairs, &dimensions, side, placement);
        assert_eq!(reads.get(), 2 * 40 + 2 * 40);
        let mut pairs = staged(&kept);
        let (data, canonical) = build(&kept, &mut pairs);
        assert!(!canonical);
        let mut start = 0usize;
        for matrix in &matrices {
            let bond = dimension(&dimensions, matrix.sector);
            let len = source_extent(matrix, source_trees) * bond;
            let segment = &data[start..start + len];
            if [0, 3, 7].contains(&matrix.sector.id()) {
                assert_identity_segment(segment, bond);
            } else {
                assert_eq!(segment, &reference[start..start + len]);
            }
            start += len;
        }
        assert_eq!(start, data.len());
    }
}

#[test]
fn mf_one_sided_many_tree_fallback_indexes_each_populated_sector_once() {
    many_tree_fallback_case(|k| k as f64 + 0.25);
    many_tree_fallback_case(|k| Complex64::new(k as f64 + 0.25, 0.5 - k as f64));
}

/// Three legs of two sectors on each side under the rule with multiplicity
/// two: coupled sector 1 has 14 trees on each side and sector 0 has 6.
fn checked_many_tree_case<D: Scalar>(values: impl Fn(usize) -> D) {
    let leg = || vec![(0, 1), (1, 1)];
    let hom = Hom {
        codomain: vec![leg(), leg(), leg()],
        domain: vec![leg(), leg(), leg()],
    };
    let source = layout(Rule::Generic, &hom);
    let zeros = vec![D::zero(); source.required_len()];
    let fresh = || sector_matricizations(&source, &zeros, 3, D::zero()).unwrap();
    let matrices = fresh();
    assert_eq!(
        matrices
            .iter()
            .map(|m| (m.sector.id(), m.row_trees.len(), m.col_trees.len()))
            .collect::<Vec<_>>(),
        [(0, 6, 6), (1, 14, 14)]
    );
    for side in [FactorSide::Left, FactorSide::Right] {
        let dimensions = source_dimensions(&matrices, side);
        let structure = factor_layout(Rule::Generic, &hom, &dimensions, side);
        assert_eq!(structure.block_count(), 20);
        let build = |matrices: &[SectorMatricization<D>], pairs: &mut Vec<FactorPair<D>>| {
            let (factor, canonical) =
                publish_one_sided_checked(&structure, matrices, pairs, &dimensions, side);
            (factor.unwrap(), canonical)
        };
        let staged = |matrices: &[SectorMatricization<D>]| {
            staged_one_sided_pairs(matrices, &dimensions, side, side, &values)
        };

        let mut pairs = staged(&matrices);
        let (reference, canonical) = build(&matrices, &mut pairs);
        assert!(canonical);

        let mut reversed = fresh();
        reversed.reverse();
        let mut pairs = staged(&reversed);
        let (data, canonical) = build(&reversed, &mut pairs);
        assert!(!canonical);
        assert_eq!(data, reference);
        // One index serves the check of all trees and the scatter.
        let reads = Cell::new(0);
        let mut pairs = staged(&reversed);
        let counting = counted(&reversed, &reads);
        let (again, _) =
            publish_one_sided_checked(&structure, &counting, &mut pairs, &dimensions, side);
        assert_eq!(again.unwrap(), reference);
        assert_eq!(reads.get(), 2 * 20 + 2 * 2 * 20);

        // A sector without matrix after (keep 0) and before (keep 1) the
        // populated one.
        let lens = matrices
            .iter()
            .map(|m| source_extent(m, side) * dimension(&dimensions, m.sector))
            .collect::<Vec<_>>();
        for keep in [0usize, 1] {
            let kept = fresh()
                .into_iter()
                .filter(|m| m.sector.id() == keep)
                .collect::<Vec<_>>();
            let mut pairs = staged(&kept);
            let (data, canonical) = build(&kept, &mut pairs);
            assert!(!canonical);
            let (first, second) = data.split_at(lens[0]);
            let (reference_first, reference_second) = reference.split_at(lens[0]);
            assert_eq!(second.len(), lens[1]);
            if keep == 0 {
                assert_eq!(first, reference_first);
                assert_identity_segment(second, dimension(&dimensions, sector(1)));
            } else {
                assert_identity_segment(first, dimension(&dimensions, sector(0)));
                assert_eq!(second, reference_second);
            }
        }
    }
}

#[test]
fn checked_one_sided_many_tree_publication_reuses_one_index_per_sector() {
    checked_many_tree_case(|k| k as f64 + 0.25);
    checked_many_tree_case(|k| Complex64::new(k as f64 + 0.25, 0.5 - k as f64));
}

#[test]
fn generic_pair_fallback_validation_indexes_each_sector_once() {
    let (sector_count, trees_per_sector) = (4usize, 8usize);
    let mut matrices = Vec::new();
    let mut left_keys = Vec::new();
    let mut right_keys = Vec::new();
    for id in 0..sector_count {
        let bond = generic_pair(id, 1, 1).codomain;
        let mut row_trees = Vec::new();
        let mut col_trees = Vec::new();
        for tree_index in 0..trees_per_sector {
            let source = generic_pair(id, tree_index + 1, tree_index + 1);
            left_keys.push(pair_key(source.codomain.clone(), bond.clone()));
            right_keys.push(pair_key(bond.clone(), source.domain.clone()));
            row_trees.push(span(source.codomain, tree_index, vec![1, 1]));
            col_trees.push(span(source.domain, tree_index, vec![1, 1]));
        }
        matrices.push(SectorMatricization {
            sector: sector(id),
            rows: trees_per_sector,
            cols: trees_per_sector,
            row_trees,
            col_trees,
            data: Vec::<f64>::new(),
        });
    }
    left_keys.reverse();
    right_keys.reverse();
    let ranks = (0..sector_count)
        .map(|id| SectorRank {
            sector: sector(id),
            kept: 1,
        })
        .collect::<Vec<_>>();
    for (side, keys) in [
        (FactorSide::Left, &left_keys),
        (FactorSide::Right, &right_keys),
    ] {
        assert_eq!(keys.len(), sector_count * trees_per_sector);
        let reads = Cell::new(0);
        let counting = counted(&matrices, &reads);
        assert!(validate_generic_factor_keys(keys, side, &counting, None).unwrap());
        // Every tree of both sides is entered once, and every key looked up once.
        assert_eq!(reads.get(), 2 * keys.len() + 2 * keys.len());
        assert!(!validate_generic_factor_keys(keys, side, &matrices, Some(&ranks)).unwrap());
    }
}

fn reordered<D: Copy>(source: &[D], order: &[usize]) -> Vec<D> {
    order.iter().map(|&index| source[index]).collect()
}

const REVERSED_LEFT: [usize; 8] = [2, 3, 0, 1, 6, 7, 4, 5];
const REVERSED_RIGHT: [usize; 12] = [6, 7, 8, 9, 10, 11, 0, 1, 2, 3, 4, 5];

#[test]
fn checked_one_sided_placement_preserves_both_sides_and_tree_orders() {
    let dimensions = dimensions_of(&[(1, 2)]);

    for reverse in [false, true] {
        let (hom, matrix, pair) = vertex_tree_factor_fixture(reverse);
        for side in [FactorSide::Left, FactorSide::Right] {
            let (_, _, staged) = vertex_tree_factor_fixture(reverse);
            let structure = factor_layout(Rule::Generic, &hom, &dimensions, side);
            let (factor, _) = publish_one_sided_checked(
                &structure,
                std::slice::from_ref(&matrix),
                &mut vec![staged],
                &dimensions,
                side,
            );
            let expected = match (side, reverse) {
                (FactorSide::Left, false) => pair.left.clone(),
                (FactorSide::Right, false) => pair.right.clone(),
                (FactorSide::Left, true) => reordered(&pair.left, &REVERSED_LEFT),
                (FactorSide::Right, true) => reordered(&pair.right, &REVERSED_RIGHT),
            };
            assert_eq!(factor.unwrap(), expected);
            let selected_vertices = keys_of(&structure)
                .iter()
                .map(|key| match side {
                    FactorSide::Left => key.codomain.vertices[0],
                    FactorSide::Right => key.domain.vertices[0],
                })
                .collect::<Vec<_>>();
            assert_eq!(selected_vertices, [1, 2]);
        }
    }
}

#[test]
fn checked_one_sided_reports_missing_pairs_and_full_trees() {
    let (hom, matrix, _) = vertex_tree_factor_fixture(false);
    let dimensions = dimensions_of(&[(1, 2)]);
    for side in [FactorSide::Left, FactorSide::Right] {
        let structure = factor_layout(Rule::Generic, &hom, &dimensions, side);
        let (result, _) = publish_one_sided_checked(
            &structure,
            std::slice::from_ref(&matrix),
            &mut Vec::<FactorPair<Complex64>>::new(),
            &dimensions,
            side,
        );
        assert_eq!(
            result.unwrap_err(),
            scope("factor rank absent for a populated source sector")
        );
    }

    for side in [FactorSide::Left, FactorSide::Right] {
        let (_, mut wrong, pair) = vertex_tree_factor_fixture(false);
        match side {
            FactorSide::Left => wrong.row_trees[0].tree = wrong.row_trees[1].tree.clone(),
            FactorSide::Right => wrong.col_trees[0].tree = wrong.col_trees[1].tree.clone(),
        }
        let structure = factor_layout(Rule::Generic, &hom, &dimensions, side);
        let (result, _) = publish_one_sided_checked(
            &structure,
            std::slice::from_ref(&wrong),
            &mut vec![pair],
            &dimensions,
            side,
        );
        let expected = match side {
            FactorSide::Left => "factor codomain tree absent from the source matricization",
            FactorSide::Right => "factor domain tree absent from the source matricization",
        };
        assert_eq!(result.unwrap_err(), scope(expected));
    }
}

#[test]
fn generic_pair_publication_preserves_vertex_tree_payload_placement() {
    let (hom, matrix, pair) = vertex_tree_factor_fixture(false);
    let expected_left = pair.left.clone();
    let expected_right = pair.right.clone();
    let matrices = [matrix];
    let pairs = vec![pair];
    assert!(pair_is_canonical(Rule::Generic, &hom, &matrices, &pairs));
    let (left_layout, right_layout) = pair_layouts(Rule::Generic, &hom, &pairs);
    assert_eq!(left_layout.block_count() + right_layout.block_count(), 4);
    let (left, right) = publish_pair(Rule::Generic, &hom, &matrices, pairs).unwrap();
    assert_eq!(left, expected_left);
    assert_eq!(right, expected_right);

    let (hom, matrix, pair) = vertex_tree_factor_fixture(true);
    let left_source = pair.left.clone();
    let right_source = pair.right.clone();
    let matrices = [matrix];
    let pairs = vec![pair];
    assert!(!pair_is_canonical(Rule::Generic, &hom, &matrices, &pairs));
    for (structure, side) in [
        (&left_layout, FactorSide::Left),
        (&right_layout, FactorSide::Right),
    ] {
        assert_eq!(
            SectorBlockGroups::new(structure, side).blocks(sector(1)),
            [0, 1]
        );
    }
    let (left, right) = publish_pair(Rule::Generic, &hom, &matrices, pairs).unwrap();
    assert_eq!(left, reordered(&left_source, &REVERSED_LEFT));
    assert_eq!(right, reordered(&right_source, &REVERSED_RIGHT));
}

#[test]
fn generic_pair_canonical_validation_scales_linearly_in_sectors_and_trees() {
    for (sector_count, trees_per_sector) in [(1, 1), (1, 4), (4, 1), (4, 3)] {
        let mut matrices = Vec::with_capacity(sector_count);
        let mut pairs = Vec::with_capacity(sector_count);
        let mut left_keys = Vec::new();
        let mut right_keys = Vec::new();
        let mut left_blocks = Vec::new();
        let mut right_blocks = Vec::new();
        let mut output_offset = 0usize;
        for id in 0..sector_count {
            let bond = tree(&[id], id, &[false], &[], &[]);
            let mut row_trees = Vec::with_capacity(trees_per_sector);
            let mut col_trees = Vec::with_capacity(trees_per_sector);
            for tree_index in 0..trees_per_sector {
                let source = generic_pair(id, tree_index + 1, tree_index + 1);
                let row_tree = source.codomain.clone();
                let col_tree = source.domain.clone();
                let left_key = pair_key(row_tree.clone(), bond.clone());
                let right_key = pair_key(bond.clone(), col_tree.clone());
                left_blocks.push(block(
                    left_key.clone(),
                    vec![1, 1, 1],
                    vec![1, 1, trees_per_sector],
                    output_offset + tree_index,
                ));
                right_blocks.push(block(
                    right_key.clone(),
                    vec![1, 1, 1],
                    vec![1, 1, 1],
                    output_offset + tree_index,
                ));
                left_keys.push(left_key);
                right_keys.push(right_key);
                row_trees.push(span(row_tree, tree_index, vec![1, 1]));
                col_trees.push(span(col_tree, tree_index, vec![1, 1]));
            }
            matrices.push(SectorMatricization {
                sector: sector(id),
                rows: trees_per_sector,
                cols: trees_per_sector,
                row_trees,
                col_trees,
                data: vec![0.0; trees_per_sector * trees_per_sector],
            });
            pairs.push(FactorPair {
                sector: sector(id),
                kept: 1,
                left: (0..trees_per_sector)
                    .map(|index| 100.0 * id as f64 + index as f64)
                    .collect(),
                left_rows: trees_per_sector,
                right: (0..trees_per_sector)
                    .map(|index| -100.0 * id as f64 - index as f64)
                    .collect(),
                right_leading: 1,
            });
            output_offset += trees_per_sector;
        }
        let ranks = pairs
            .iter()
            .map(|pair| SectorRank {
                sector: pair.sector,
                kept: pair.kept,
            })
            .collect::<Vec<_>>();
        let left_structure = structure_of(left_blocks);
        let right_structure = structure_of(right_blocks);
        let expected_left = pairs
            .iter()
            .flat_map(|pair| pair.left.iter().copied())
            .collect::<Vec<_>>();
        let expected_right = pairs
            .iter()
            .flat_map(|pair| pair.right.iter().copied())
            .collect::<Vec<_>>();

        // Every key is compared with one tree, and nothing is looked up.
        for (side, keys) in [(FactorSide::Left, &left_keys), (FactorSide::Right, &right_keys)] {
            let reads = Cell::new(0);
            let counting = counted(&matrices, &reads);
            assert!(validate_generic_factor_keys(keys, side, &counting, Some(&ranks)).unwrap());
            assert_eq!(keys.len(), sector_count * trees_per_sector);
            assert_eq!(reads.get(), keys.len());
        }
        assert!(factor_output_is_canonical(
            &left_structure,
            Some(&left_keys),
            &matrices,
            &pairs,
            expected_left.len(),
            FactorSide::Left,
        ));
        assert!(factor_output_is_canonical(
            &right_structure,
            Some(&right_keys),
            &matrices,
            &pairs,
            expected_right.len(),
            FactorSide::Right,
        ));
        assert_eq!(
            left_keys.len() + right_keys.len(),
            2 * sector_count * trees_per_sector
        );
        let (left, right) =
            publish_generic_factor_pairs(pairs, expected_left.len(), expected_right.len());
        assert_eq!(left, expected_left);
        assert_eq!(right, expected_right);
    }
}

#[test]
fn generic_pair_validation_preserves_missing_sector_and_tree_errors() {
    let (hom, matrix) = z2_single_sector_matrix(1, 1);
    let pair = || FactorPair {
        sector: sector(0),
        kept: 1,
        left: vec![1.0],
        left_rows: 1,
        right: vec![1.0],
        right_leading: 1,
    };

    let missing_sector = publish_pair(
        Rule::Generic,
        &hom,
        &[] as &[SectorMatricization<f64>],
        vec![pair()],
    )
    .unwrap_err();
    assert_eq!(
        missing_sector,
        scope("factor tree references a coupled sector absent from the source tensor")
    );

    let wrong = tree(&[1], 0, &[false], &[], &[]);
    let mut wrong_row = matrix;
    wrong_row.row_trees[0].tree = wrong.clone();
    wrong_row.col_trees[0].tree = wrong.clone();
    let missing_row =
        publish_pair(Rule::Generic, &hom, &[wrong_row], vec![pair()]).unwrap_err();
    assert_eq!(
        missing_row,
        scope("factor codomain tree absent from the source matricization")
    );

    let (_, mut wrong_col) = z2_single_sector_matrix(1, 1);
    wrong_col.col_trees[0].tree = wrong;
    let missing_col =
        publish_pair(Rule::Generic, &hom, &[wrong_col], vec![pair()]).unwrap_err();
    assert_eq!(
        missing_col,
        scope("factor domain tree absent from the source matricization")
    );
}

#[test]
fn generic_pair_publication_handles_zero_kept_sector() {
    let (hom, matrix) = z2_single_sector_matrix(2, 1);
    let matrices = [matrix];
    let pairs = vec![FactorPair {
        sector: sector(0),
        kept: 0,
        left: Vec::<f64>::new(),
        left_rows: 2,
        right: Vec::new(),
        right_leading: 0,
    }];
    assert!(pair_is_canonical(Rule::Generic, &hom, &matrices, &pairs));
    let (left, right) = publish_pair(Rule::Generic, &hom, &matrices, pairs).unwrap();
    assert!(left.is_empty());
    assert!(right.is_empty());

    let empty_hom = Hom {
        codomain: Vec::new(),
        domain: Vec::new(),
    };
    let (left, right) = publish_pair::<f64, SectorMatricization<f64>>(
        Rule::Generic,
        &empty_hom,
        &[],
        Vec::new(),
    )
    .unwrap();
    assert!(left.is_empty());
    assert!(right.is_empty());
}

#[test]
fn generic_pair_publication_handles_scalar_matrix() {
    let hom = Hom {
        codomain: Vec::new(),
        domain: Vec::new(),
    };
    let scalar = tree(&[], 0, &[], &[], &[]);
    let matrices = [SectorMatricization {
        sector: sector(0),
        rows: 1,
        cols: 1,
        row_trees: vec![span(scalar.clone(), 0, Vec::new())],
        col_trees: vec![span(scalar, 0, Vec::new())],
        data: vec![7.0],
    }];
    let pairs = vec![FactorPair {
        sector: sector(0),
        kept: 1,
        left: vec![2.0],
        left_rows: 1,
        right: vec![3.5],
        right_leading: 1,
    }];
    let left_ptr = pairs[0].left.as_ptr();
    let right_ptr = pairs[0].right.as_ptr();
    assert!(pair_is_canonical(Rule::Generic, &hom, &matrices, &pairs));
    let (left, right) = publish_pair(Rule::Generic, &hom, &matrices, pairs).unwrap();
    assert_eq!(left, [2.0]);
    assert_eq!(right, [3.5]);
    assert!(std::ptr::eq(left_ptr, left.as_ptr()));
    assert!(std::ptr::eq(right_ptr, right.as_ptr()));
}

fn z2_two_sector_geometry<D: Scalar>() -> (Hom, Vec<SectorMatricization<D>>) {
    two_leg_geometry(
        Rule::Cyclic(2),
        [
            vec![(0, 2), (1, 1)],
            vec![(0, 1), (1, 3)],
            vec![(0, 1), (1, 2)],
            vec![(0, 2), (1, 1)],
        ],
    )
}

/// Checks every output element against the literal coordinates
/// `F[o + q + a*j]` (left) and `F[j + b*(o + q)]` (right).
fn assert_literal_one_sided_layout<D: Scalar>(
    structure: &BlockStructure,
    data: &[D],
    matrices: &[SectorMatricization<D>],
    selected: &[Vec<D>],
    dimensions: &BondDimensions,
    side: FactorSide,
    source_trees: FactorSide,
) {
    let mut verified = 0usize;
    for index in 0..structure.block_count() {
        let block = structure.block(index);
        let key = match block.key() {
            BlockKey::FusionTree(key) => key,
            BlockKey::Plain => panic!("factor blocks carry fusion-tree keys"),
        };
        let tree = match side {
            FactorSide::Left => key.codomain_tree(),
            FactorSide::Right => key.domain_tree(),
        };
        let (matrix_index, matrix) = matrices
            .iter()
            .enumerate()
            .find(|(_, matrix)| matrix.sector == tree.coupled())
            .unwrap();
        let trees = match source_trees {
            FactorSide::Left => &matrix.row_trees,
            FactorSide::Right => &matrix.col_trees,
        };
        let entry = trees.iter().find(|entry| &entry.tree == tree).unwrap();
        let o = entry.offset;
        let a = source_extent(matrix, source_trees);
        let b = dimension(dimensions, matrix.sector);
        let factor = &selected[matrix_index];
        let shape = block.shape();
        let strides = block.strides();
        let total = extent_of(shape);
        assert_eq!(total, extent_of(&entry.shape) * b);
        for flat in 0..total {
            let mut remaining = flat;
            let mut destination = block.offset();
            let mut coordinates = vec![0usize; shape.len()];
            for axis in 0..shape.len() {
                coordinates[axis] = remaining % shape[axis];
                remaining /= shape[axis];
                destination += coordinates[axis] * strides[axis];
            }
            let tree_axes = match side {
                FactorSide::Left => 0..shape.len() - 1,
                FactorSide::Right => 1..shape.len(),
            };
            let mut q = 0usize;
            let mut width = 1usize;
            for axis in tree_axes {
                q += coordinates[axis] * width;
                width *= shape[axis];
            }
            let j = match side {
                FactorSide::Left => coordinates[shape.len() - 1],
                FactorSide::Right => coordinates[0],
            };
            let expected = match side {
                FactorSide::Left => factor[o + q + a * j],
                FactorSide::Right => factor[j + b * (o + q)],
            };
            assert_eq!(data[destination], expected);
            verified += 1;
        }
    }
    assert_eq!(verified, data.len());
}

fn mf_one_sided_canonical_transfer_case<D: Scalar>(values: &dyn Fn(usize) -> D) {
    let (hom, matrices) = z2_two_sector_geometry::<D>();
    let adjoint = hom.adjoint();
    assert_eq!(matrices.len(), 2);
    assert!(matrices.iter().all(|matrix| matrix.rows != matrix.cols
        && matrix.row_trees.len() == 2
        && matrix.col_trees.len() == 2));
    assert_ne!(matrices[0].rows, matrices[1].rows);

    let cases = [
        (&hom, FactorSide::Left, FactorPlacement::Direct),
        (&hom, FactorSide::Right, FactorPlacement::Direct),
        (&adjoint, FactorSide::Left, FactorPlacement::Adjoint),
        (&adjoint, FactorSide::Right, FactorPlacement::Adjoint),
    ];
    for (output_hom, side, placement) in cases {
        let source_trees = source_trees_for(side, placement);
        let dimensions = source_dimensions(&matrices, source_trees);
        let mut pairs = staged_one_sided_pairs(&matrices, &dimensions, side, source_trees, values);
        let selected = pairs
            .iter()
            .map(|pair| selected_of(pair, side).clone())
            .collect::<Vec<_>>();
        let opposite = pairs
            .iter()
            .map(|pair| opposite_of(pair, side).clone())
            .collect::<Vec<_>>();

        let structure = factor_layout(Rule::Cyclic(2), output_hom, &dimensions, side);
        let (factor, canonical) = publish_one_sided(
            &structure,
            &matrices,
            &mut pairs,
            &dimensions,
            side,
            placement,
        );
        let factor = factor.unwrap();

        assert!(canonical);
        assert_eq!(factor.len() - selected[0].len(), selected[1].len());
        assert_literal_one_sided_layout(
            &structure,
            &factor,
            &matrices,
            &selected,
            &dimensions,
            side,
            source_trees,
        );
        for (index, pair) in pairs.iter().enumerate() {
            assert!(selected_of(pair, side).is_empty());
            assert_eq!(opposite_of(pair, side), &opposite[index]);
            assert_eq!(pair.kept, 99);
        }
    }
}

#[test]
fn mf_one_sided_canonical_transfer_real_full_svd_bonds() {
    mf_one_sided_canonical_transfer_case(&|k| k as f64 * 0.5 - 7.0);
}

#[test]
fn mf_one_sided_canonical_transfer_complex_full_svd_bonds() {
    mf_one_sided_canonical_transfer_case(&|k| Complex64::new(k as f64, -(k as f64) / 3.0));
}

#[test]
fn mf_one_sided_fallbacks_match_canonical_output_and_keep_buffers() {
    let (hom, matrices) = z2_two_sector_geometry::<f64>();
    let side = FactorSide::Left;
    let row_dimensions = source_dimensions(&matrices, side);
    let structure = factor_layout(Rule::Cyclic(2), &hom, &row_dimensions, side);
    let staged = |scale: f64| {
        staged_one_sided_pairs(&matrices, &row_dimensions, side, side, &|k| {
            scale * (k as f64 + 1.0)
        })
    };
    let build = |matrices: &[SectorMatricization<f64>], pairs: &mut Vec<FactorPair<f64>>| {
        publish_one_sided(
            &structure,
            matrices,
            pairs,
            &row_dimensions,
            side,
            FactorPlacement::Direct,
        )
    };
    let canonical_data = |scale: f64| {
        let mut pairs = staged(scale);
        let (factor, canonical) = build(&matrices, &mut pairs);
        assert!(canonical);
        factor.unwrap()
    };
    let reference = canonical_data(1.0);
    let sector_len = matrices[0].rows * matrices[0].rows;

    // Reordered matrices: same output, scattered.
    let (_, mut reversed) = z2_two_sector_geometry::<f64>();
    reversed.reverse();
    let mut pairs = staged(1.0);
    pairs.reverse();
    let (factor, canonical) = build(&reversed, &mut pairs);
    assert!(!canonical);
    assert_eq!(factor.unwrap(), reference);
    assert_buffers_intact(&pairs, side);

    // Reordered pairs alone.
    let mut pairs = staged(1.0);
    pairs.reverse();
    let (factor, canonical) = build(&matrices, &mut pairs);
    assert!(!canonical);
    assert_eq!(factor.unwrap(), reference);
    assert_buffers_intact(&pairs, side);

    // Padded source: the even factor has one extra leading row that no tree
    // covers, so tree offsets no longer start at zero.
    let (_, mut padded) = z2_two_sector_geometry::<f64>();
    padded[0].rows += 1;
    for tree in &mut padded[0].row_trees {
        tree.offset += 1;
    }
    let mut pairs =
        staged_one_sided_pairs(&padded, &row_dimensions, side, side, &|k| k as f64 + 1.0);
    let selected = pairs
        .iter()
        .map(|pair| pair.left.clone())
        .collect::<Vec<_>>();
    let (factor, canonical) = build(&padded, &mut pairs);
    assert!(!canonical);
    let factor = factor.unwrap();
    assert_eq!(factor.len(), reference.len());
    assert_literal_one_sided_layout(
        &structure,
        &factor,
        &padded,
        &selected,
        &row_dimensions,
        side,
        side,
    );
    assert_buffers_intact(&pairs, side);

    // A sector without matrix after (drop odd) and before (drop even) the
    // populated one; the populated region equals the canonical one.
    let mut pairs = staged(1.0);
    pairs.truncate(1);
    let (factor, canonical) = build(&matrices[..1], &mut pairs);
    assert!(!canonical);
    let factor = factor.unwrap();
    assert_eq!(&factor[..sector_len], &reference[..sector_len]);
    let identity = &factor[sector_len..];
    assert_eq!(
        identity.iter().filter(|&&value| value == 1.0).count(),
        matrices[1].rows
    );
    assert!(identity.iter().all(|&value| value == 0.0 || value == 1.0));
    assert_buffers_intact(&pairs, side);
    let mut pairs = staged(1.0);
    pairs.remove(0);
    let (factor, canonical) = build(&matrices[1..], &mut pairs);
    assert!(!canonical);
    let factor = factor.unwrap();
    assert_eq!(&factor[sector_len..], &reference[sector_len..]);
    assert_eq!(
        factor[..sector_len]
            .iter()
            .filter(|&&value| value == 1.0)
            .count(),
        matrices[0].rows
    );
    assert_buffers_intact(&pairs, side);

    // Missing pair for a populated sector.
    let mut pairs = staged(1.0);
    pairs.truncate(1);
    let (result, canonical) = build(&matrices, &mut pairs);
    assert_eq!(
        result.unwrap_err(),
        scope("factor rank absent for a populated source sector")
    );
    assert!(!canonical);
    assert_buffers_intact(&pairs, side);

    // A pair of a sector that the source does not have.
    let mut pairs = staged(1.0);
    pairs.push(FactorPair {
        sector: sector(5),
        kept: 1,
        left: vec![1.0],
        left_rows: 1,
        right: Vec::new(),
        right_leading: 0,
    });
    let (result, _) = build(&matrices, &mut pairs);
    assert_eq!(
        result.unwrap_err(),
        scope("factor sector absent from the source tensor")
    );
    assert_buffers_intact(&pairs, side);

    // Two pairs of the even sector with different payloads: the last one wins.
    let alternate = canonical_data(2.0);
    let mut pairs = staged(1.0);
    let mut duplicate = staged(2.0);
    pairs.push(duplicate.swap_remove(0));
    let (factor, canonical) = build(&matrices, &mut pairs);
    assert!(!canonical);
    let factor = factor.unwrap();
    assert_eq!(&factor[..sector_len], &alternate[..sector_len]);
    assert_eq!(&factor[sector_len..], &reference[sector_len..]);
    assert_ne!(&alternate[..sector_len], &reference[..sector_len]);
    assert_buffers_intact(&pairs, side);
}

fn z3_legs() -> [Leg; 4] {
    [
        vec![(0, 1), (1, 2), (2, 1)],
        vec![(0, 2), (1, 1), (2, 1)],
        vec![(0, 1), (1, 1), (2, 2)],
        vec![(0, 2), (1, 1), (2, 1)],
    ]
}

#[test]
fn mf_one_sided_identity_sector_between_populated_sectors_falls_back() {
    let sectors = [sector(0), sector(1), sector(2)];
    let (hom, matrices) = two_leg_geometry::<f64>(Rule::Cyclic(3), z3_legs());
    assert_eq!(
        matrices
            .iter()
            .map(|matrix| matrix.sector)
            .collect::<Vec<_>>(),
        sectors
    );
    let side = FactorSide::Right;
    let col_dimensions = source_dimensions(&matrices, side);
    let structure = factor_layout(Rule::Cyclic(3), &hom, &col_dimensions, side);
    let build = |matrices: &[SectorMatricization<f64>], pairs: &mut Vec<FactorPair<f64>>| {
        let (factor, canonical) = publish_one_sided(
            &structure,
            matrices,
            pairs,
            &col_dimensions,
            side,
            FactorPlacement::Direct,
        );
        (factor.unwrap(), canonical)
    };
    let mut pairs =
        staged_one_sided_pairs(&matrices, &col_dimensions, side, side, &|k| k as f64 + 0.25);
    let (reference, canonical) = build(&matrices, &mut pairs);
    assert!(canonical);

    let (_, mut without_middle) = two_leg_geometry::<f64>(Rule::Cyclic(3), z3_legs());
    without_middle.remove(1);
    let mut pairs = staged_one_sided_pairs(&without_middle, &col_dimensions, side, side, &|k| {
        k as f64 + 0.25
    });
    let (data, canonical) = build(&without_middle, &mut pairs);
    assert!(!canonical);
    assert_buffers_intact(&pairs, side);
    let first = matrices[0].cols * matrices[0].cols;
    let middle = matrices[1].cols * matrices[1].cols;
    assert_eq!(&data[..first], &reference[..first]);
    assert_eq!(&data[first + middle..], &reference[first + middle..]);
    assert_eq!(
        data[first..first + middle]
            .iter()
            .filter(|&&value| value == 1.0)
            .count(),
        matrices[1].cols
    );
}

#[test]
fn mf_one_sided_zero_bond_sector_between_populated_sectors() {
    // A sector with a zero bond has no blocks and an empty factor; its
    // populated neighbours are still moved.
    let (hom, matrices) = two_leg_geometry::<f64>(Rule::Cyclic(3), z3_legs());
    assert_eq!(
        matrices
            .iter()
            .map(|matrix| matrix.sector)
            .collect::<Vec<_>>(),
        [sector(0), sector(1), sector(2)]
    );
    let side = FactorSide::Right;
    let dimensions = dimensions_of(&[(0, matrices[0].cols), (1, 0), (2, matrices[2].cols)]);
    let mut pairs = staged_one_sided_pairs(&matrices, &dimensions, side, side, &|k| k as f64 - 0.5);
    pairs[1].kept = 0;
    assert!(pairs[1].right.is_empty());
    let selected = pairs
        .iter()
        .map(|pair| pair.right.clone())
        .collect::<Vec<_>>();
    let opposite = pairs
        .iter()
        .map(|pair| pair.left.clone())
        .collect::<Vec<_>>();

    let structure = factor_layout(Rule::Cyclic(3), &hom, &dimensions, side);
    let (factor, canonical) = publish_one_sided(
        &structure,
        &matrices,
        &mut pairs,
        &dimensions,
        side,
        FactorPlacement::Direct,
    );
    let factor = factor.unwrap();

    assert!(canonical);
    assert_eq!(factor.len() - selected[0].len(), selected[2].len());
    assert_eq!(factor.len(), selected[0].len() + selected[2].len());
    assert_literal_one_sided_layout(
        &structure,
        &factor,
        &matrices,
        &selected,
        &dimensions,
        side,
        side,
    );
    for (index, pair) in pairs.iter().enumerate() {
        assert!(pair.right.is_empty());
        assert_eq!(pair.left, opposite[index]);
    }
}

/// One even sector whose tree on one side has no legs: the factor block on that
/// side has one axis. `padding` extra rows or columns precede the tree, so that
/// the factor is scattered.
fn zero_leg_side_matrix<D: Scalar>(
    zero_leg_side: FactorSide,
    extent: usize,
    padding: usize,
) -> (Hom, SectorMatricization<D>) {
    let leg = vec![vec![(0, extent)]];
    let none = tree(&[], 0, &[], &[], &[]);
    let one = tree(&[0], 0, &[false], &[], &[]);
    let (hom, rows, cols, row_trees, col_trees) = match zero_leg_side {
        FactorSide::Left => (
            Hom {
                codomain: Vec::new(),
                domain: leg,
            },
            1 + padding,
            extent,
            vec![span(none, padding, vec![])],
            vec![span(one, 0, vec![extent])],
        ),
        FactorSide::Right => (
            Hom {
                codomain: leg,
                domain: Vec::new(),
            },
            extent,
            1 + padding,
            vec![span(one, 0, vec![extent])],
            vec![span(none, padding, vec![])],
        ),
    };
    (
        hom,
        SectorMatricization {
            sector: sector(0),
            rows,
            cols,
            row_trees,
            col_trees,
            data: vec![D::zero(); rows * cols],
        },
    )
}

/// Blocks with one axis on both sides. Right: the block at column `o` of a
/// `b x cols` factor is `F[j + b*o]`; left: the block at row `o` of an `a x b`
/// factor is `F[o + a*j]`.
fn one_sided_rank1_fallback_case<D: Scalar>(values: &dyn Fn(usize) -> D) {
    let b = 3usize;
    let padding = 1usize;
    let factor = (0..2 * b).map(values).collect::<Vec<_>>();
    let pair = |side| match side {
        FactorSide::Right => FactorPair {
            sector: sector(0),
            kept: 99,
            left: vec![values(500)],
            left_rows: 1,
            right: factor.clone(),
            right_leading: b,
        },
        FactorSide::Left => FactorPair {
            sector: sector(0),
            kept: 99,
            left: factor.clone(),
            left_rows: 1 + padding,
            right: vec![values(500)],
            right_leading: 1,
        },
    };
    let cases = [
        (
            FactorSide::Right,
            (0..b).map(|j| factor[j + b * padding]).collect::<Vec<_>>(),
        ),
        (
            FactorSide::Left,
            (0..b)
                .map(|j| factor[padding + (1 + padding) * j])
                .collect::<Vec<_>>(),
        ),
    ];
    for (side, expected) in cases {
        let (hom, matrix) = zero_leg_side_matrix::<D>(side, 2, padding);
        let dimensions = dimensions_of(&[(0, b)]);
        let selected = factor.clone();
        let structure = factor_layout(Rule::Generic, &hom, &dimensions, side);

        let mut pairs = vec![pair(side)];
        let (direct, canonical) = publish_one_sided(
            &structure,
            std::slice::from_ref(&matrix),
            &mut pairs,
            &dimensions,
            side,
            FactorPlacement::Direct,
        );
        assert!(!canonical);
        assert_eq!(structure.block(0).shape(), [b]);
        assert_eq!(direct.unwrap(), expected);
        assert_eq!(selected_of(&pairs[0], side), &selected);

        let mut pairs = vec![pair(side)];
        let (checked, canonical) = publish_one_sided_checked(
            &structure,
            std::slice::from_ref(&matrix),
            &mut pairs,
            &dimensions,
            side,
        );
        assert!(!canonical);
        assert_eq!(checked.unwrap(), expected);
        assert_eq!(selected_of(&pairs[0], side), &selected);
    }
}

#[test]
fn one_sided_rank1_fallback_scatters_right_and_left_layouts_real() {
    one_sided_rank1_fallback_case(&|k| k as f64 + 0.5);
}

#[test]
fn one_sided_rank1_fallback_scatters_right_and_left_layouts_complex() {
    one_sided_rank1_fallback_case(&|k| Complex64::new(k as f64, -(k as f64) - 0.25));
}

#[test]
fn generic_pair_fallback_scatters_rank1_right_block_with_right_layout() {
    let b = 3usize;
    let padding = 1usize;
    let (hom, matrix) = zero_leg_side_matrix::<f64>(FactorSide::Right, 2, padding);
    let left = (0..2 * b).map(|k| 10.0 + k as f64).collect::<Vec<_>>();
    let right = (0..b * (1 + padding))
        .map(|k| 20.0 + k as f64)
        .collect::<Vec<_>>();
    let pairs = vec![FactorPair {
        sector: sector(0),
        kept: b,
        left: left.clone(),
        left_rows: 2,
        right: right.clone(),
        right_leading: b,
    }];
    let matrices = [matrix];
    assert!(!pair_is_canonical(Rule::Generic, &hom, &matrices, &pairs));
    let (_, right_layout) = pair_layouts(Rule::Generic, &hom, &pairs);

    let (left_factor, right_factor) =
        publish_pair(Rule::Generic, &hom, &matrices, pairs).unwrap();

    assert_eq!(left_factor, left);
    assert_eq!(right_layout.block(0).shape(), [b]);
    assert_eq!(
        right_factor,
        (0..b).map(|j| right[j + b * padding]).collect::<Vec<_>>()
    );
}

fn two_sector_checked_hom() -> Hom {
    Hom {
        codomain: vec![vec![(0, 2), (1, 1)], vec![(0, 1), (1, 3)]],
        domain: vec![vec![(0, 1), (1, 2)], vec![(0, 2), (1, 1)]],
    }
}

fn two_sector_checked_matrices<D: Scalar>() -> (Hom, Vec<SectorMatricization<D>>) {
    let hom = two_sector_checked_hom();
    let source = layout(Rule::Generic, &hom);
    let zeros = vec![D::zero(); source.required_len()];
    let matrices = sector_matricizations(&source, &zeros, 2, D::zero()).unwrap();
    assert_eq!(matrices.len(), 2);
    (hom, matrices)
}

#[test]
fn checked_one_sided_canonical_transfer_across_sectors_and_extra_pairs() {
    let (hom, matrices) = two_sector_checked_matrices::<Complex64>();
    let values = |k: usize| Complex64::new(0.5 * k as f64, 2.0 - k as f64);

    for side in [FactorSide::Left, FactorSide::Right] {
        let dimensions = source_dimensions(&matrices, side);
        let structure = factor_layout(Rule::Generic, &hom, &dimensions, side);
        let mut pairs = staged_one_sided_pairs(&matrices, &dimensions, side, side, &values);
        let selected = pairs
            .iter()
            .map(|pair| selected_of(pair, side).clone())
            .collect::<Vec<_>>();
        let opposite = pairs
            .iter()
            .map(|pair| opposite_of(pair, side).clone())
            .collect::<Vec<_>>();
        let (factor, canonical) =
            publish_one_sided_checked(&structure, &matrices, &mut pairs, &dimensions, side);
        let factor = factor.unwrap();
        assert!(canonical);
        assert_eq!(factor.len() - selected[0].len(), selected[1].len());
        assert_literal_one_sided_layout(
            &structure,
            &factor,
            &matrices,
            &selected,
            &dimensions,
            side,
            side,
        );
        for (index, pair) in pairs.iter().enumerate() {
            assert!(selected_of(pair, side).is_empty());
            assert_eq!(opposite_of(pair, side), &opposite[index]);
        }

        // An extra unused pair is ignored by the scatter, never an error, and
        // the output is identical.
        let mut pairs = staged_one_sided_pairs(&matrices, &dimensions, side, side, &values);
        pairs.push(FactorPair {
            sector: sector(7),
            kept: 1,
            left: vec![Complex64::new(1.0, 1.0)],
            left_rows: 1,
            right: vec![Complex64::new(1.0, 1.0)],
            right_leading: 1,
        });
        let (fallback, canonical) =
            publish_one_sided_checked(&structure, &matrices, &mut pairs, &dimensions, side);
        assert!(!canonical);
        assert_eq!(fallback.unwrap(), factor);
        assert_buffers_intact(&pairs, side);
    }
}

#[test]
fn checked_one_sided_vertex_trees_transfer_sole_owner_or_fall_back() {
    let dimensions = dimensions_of(&[(1, 2)]);
    for reverse in [false, true] {
        for side in [FactorSide::Left, FactorSide::Right] {
            let (hom, matrix, pair) = vertex_tree_factor_fixture(reverse);
            let (_, _, reference) = vertex_tree_factor_fixture(reverse);
            let selected_ptr = selected_of(&pair, side).as_ptr();
            let structure = factor_layout(Rule::Generic, &hom, &dimensions, side);
            let mut pairs = vec![pair];
            let (factor, canonical) = publish_one_sided_checked(
                &structure,
                std::slice::from_ref(&matrix),
                &mut pairs,
                &dimensions,
                side,
            );
            let factor = factor.unwrap();
            let pair = &pairs[0];
            assert_eq!(opposite_of(pair, side), opposite_of(&reference, side));
            if reverse {
                assert!(!canonical);
                assert_eq!(selected_of(pair, side), selected_of(&reference, side));
            } else {
                assert!(canonical);
                assert!(std::ptr::eq(selected_ptr, factor.as_ptr()));
                assert!(selected_of(pair, side).is_empty());
                assert_eq!(&factor, selected_of(&reference, side));
            }
        }
    }
}

#[test]
fn checked_one_sided_placement_error_precedes_bound_space() {
    // An output key whose tree the source lacks fails before any publication;
    // the staged factor buffers stay untouched.
    let dimensions = dimensions_of(&[(1, 2)]);
    for side in [FactorSide::Left, FactorSide::Right] {
        let (hom, mut matrix, pair) = vertex_tree_factor_fixture(false);
        let (_, _, reference) = vertex_tree_factor_fixture(false);
        match side {
            FactorSide::Left => matrix.row_trees.truncate(1),
            FactorSide::Right => matrix.col_trees.truncate(1),
        }
        let structure = factor_layout(Rule::Generic, &hom, &dimensions, side);
        let mut pairs = vec![pair];
        let (result, canonical) = publish_one_sided_checked(
            &structure,
            std::slice::from_ref(&matrix),
            &mut pairs,
            &dimensions,
            side,
        );
        let expected_message = match side {
            FactorSide::Left => "factor codomain tree absent from the source matricization",
            FactorSide::Right => "factor domain tree absent from the source matricization",
        };
        assert_eq!(result.unwrap_err(), scope(expected_message));
        assert!(!canonical);
        assert_eq!(pairs[0].left, reference.left);
        assert_eq!(pairs[0].right, reference.right);
        // One tree is found in the index, and the next one is not.
        let reads = Cell::new(0);
        let again = build_bound_factor_generic_checked(
            &structure,
            &counted(std::slice::from_ref(&matrix), &reads),
            &mut pairs,
            &dimensions,
            side,
            Complex64::zero(),
            Complex64::one(),
        );
        assert_eq!(again.unwrap_err(), scope(expected_message));
        assert_eq!(reads.get(), matrix.row_trees.len() + matrix.col_trees.len() + 2);
    }
}

fn checked_structure_case<D: Scalar>(values: &dyn Fn(usize) -> D) {
    let keeps: [&dyn Fn(SectorId) -> bool; 3] =
        [&|_| true, &|kept| kept == sector(1), &|kept| {
            kept == sector(0)
        }];
    for keep in keeps {
        let (hom, all) = two_sector_checked_matrices::<D>();
        for side in [FactorSide::Left, FactorSide::Right] {
            let dimensions = source_dimensions(&all, side);
            let structure = factor_layout(Rule::Generic, &hom, &dimensions, side);
            let matrices = all
                .iter()
                .filter(|matrix| keep(matrix.sector))
                .cloned()
                .collect::<Vec<_>>();
            let mut pairs = staged_one_sided_pairs(&matrices, &dimensions, side, side, values);
            let (factor, canonical) =
                publish_one_sided_checked(&structure, &matrices, &mut pairs, &dimensions, side);
            assert_eq!(canonical, matrices.len() == 2);
            assert_eq!(factor.unwrap().len(), structure.required_len());
        }
    }
}

#[test]
fn checked_one_sided_structure_matches_two_enumeration_construction() {
    checked_structure_case(&|k| Complex64::new(0.5 * k as f64, 2.0 - k as f64));
    checked_structure_case(&|k| 0.25 * k as f64);
}

/// Every leg carries all four charges: four coupled sectors with four row and
/// four column trees each, so each factor has 16 output blocks.
fn z4_all_charge_legs() -> [Leg; 4] {
    let all = (0..4).map(|s| (s, 1)).collect::<Leg>();
    [all.clone(), all.clone(), all.clone(), all]
}

/// Stages `rows x kept` left and `kept x cols` right factors for each sector
/// with `kept = min(rows, cols)` and values tagged by the sector.
fn staged_pairs<D: Scalar>(
    matrices: &[SectorMatricization<D>],
    values: &dyn Fn(usize) -> D,
) -> Vec<FactorPair<D>> {
    matrices
        .iter()
        .map(|matrix| {
            let kept = matrix.rows.min(matrix.cols);
            let tag = matrix.sector.id() + 1;
            FactorPair {
                sector: matrix.sector,
                kept,
                left: (0..matrix.rows * kept)
                    .map(|k| values(1000 * tag + k))
                    .collect(),
                left_rows: matrix.rows,
                right: (0..kept * matrix.cols)
                    .map(|k| values(5000 * tag + k))
                    .collect(),
                right_leading: kept,
            }
        })
        .collect()
}

fn pair_fallback_case<D: Scalar>(values: impl Fn(usize) -> D) {
    let fresh = || two_leg_geometry::<D>(Rule::Cyclic(4), z4_all_charge_legs());
    let (hom, matrices) = fresh();
    assert_eq!(matrices.len(), 4);
    assert!(matrices
        .iter()
        .all(|m| m.row_trees.len() == 4 && m.col_trees.len() == 4));

    let build = |matrices: &[SectorMatricization<D>]| {
        let plain = publish_pair(
            Rule::Cyclic(4),
            &hom,
            matrices,
            staged_pairs(matrices, &values),
        )
        .unwrap();
        let pairs = staged_pairs(matrices, &values);
        let (left, right) = pair_layouts(Rule::Cyclic(4), &hom, &pairs);
        assert_eq!((left.block_count(), right.block_count()), (16, 16));
        let checked = publish_pair_checked(Rule::Cyclic(4), &hom, matrices, pairs).unwrap();
        (plain, checked)
    };

    let (reference, checked_reference) = build(&matrices);
    assert!(pair_is_canonical(
        Rule::Cyclic(4),
        &hom,
        &matrices,
        &staged_pairs(&matrices, &values)
    ));

    let (_, mut reversed) = fresh();
    reversed.reverse();
    let staged = staged_pairs(&reversed, &values);
    assert!(!pair_is_canonical(
        Rule::Cyclic(4),
        &hom,
        &reversed,
        &staged
    ));
    let (plain, checked) = build(&reversed);
    assert_eq!(plain, reference);
    assert_eq!(checked, checked_reference);
    // The keys of each side are checked against an index of their own, and the
    // scatter has one for both sides: 16 trees of each side are entered three
    // times, and every block is looked up once in the check of its key and once
    // when it is filled. The end of each walk over the keys reads one tree more.
    let reads = Cell::new(0);
    let counting = counted(&reversed, &reads);
    let again = publish_pair(Rule::Cyclic(4), &hom, &counting, staged_pairs(&reversed, &values));
    assert_eq!(again.unwrap(), reference);
    assert_eq!(reads.get(), 3 * 2 * 16 + 2 * (16 + 16) + 2 * (16 + 16) + 2);
    // Each side is grouped once, and the groups name every block once.
    let (left, right) = pair_layouts(Rule::Cyclic(4), &hom, &staged);
    for (structure, side) in [(&left, FactorSide::Left), (&right, FactorSide::Right)] {
        let groups = SectorBlockGroups::new(structure, side);
        let mut visited = reversed
            .iter()
            .flat_map(|matrix| groups.blocks(matrix.sector).to_vec())
            .collect::<Vec<_>>();
        visited.sort();
        assert_eq!(visited, (0..16).collect::<Vec<_>>());
    }
}

#[test]
fn generic_pair_fallback_scatters_each_output_block_once() {
    pair_fallback_case(|k| k as f64 + 0.125);
    pair_fallback_case(|k| Complex64::new(k as f64 + 0.125, 0.75 - k as f64));
}

#[test]
fn generic_pair_validation_reports_left_defect_before_right_across_sectors() {
    // With a defective domain tree in the first sector and a defective codomain
    // tree in a later sector the codomain error comes, because every left key
    // is checked before any right key.
    let two = || {
        let leg = || vec![(0, 1), (1, 1)];
        two_leg_geometry::<f64>(Rule::Cyclic(4), [leg(), leg(), leg(), leg()])
    };
    let (hom, matrices) = two();
    assert_eq!(
        matrices.iter().map(|m| m.sector.id()).collect::<Vec<_>>(),
        [0, 1, 2]
    );
    let foreign_row = matrices[0].row_trees[0].tree.clone();
    let foreign_col = matrices[1].col_trees[0].tree.clone();
    let corrupt = |bad_first_col: bool, bad_later_row: bool| {
        let (_, mut matrices) = two();
        if bad_first_col {
            matrices[0].col_trees[0].tree = foreign_col.clone();
        }
        if bad_later_row {
            matrices[1].row_trees[0].tree = foreign_row.clone();
        }
        matrices
    };
    let codomain = "factor codomain tree absent from the source matricization";
    let domain = "factor domain tree absent from the source matricization";
    for (bad_first_col, bad_later_row, expected) in [
        (true, true, codomain),
        (true, false, domain),
        (false, true, codomain),
    ] {
        let matrices = corrupt(bad_first_col, bad_later_row);
        let error = publish_pair(
            Rule::Cyclic(4),
            &hom,
            &matrices,
            staged_pairs(&matrices, &|k| k as f64),
        )
        .unwrap_err();
        assert_eq!(error, scope(expected));
        let error = publish_pair_checked(
            Rule::Cyclic(4),
            &hom,
            &matrices,
            staged_pairs(&matrices, &|k| k as f64),
        )
        .unwrap_err();
        assert_eq!(error, scope(expected));
    }
}

/// Checked publication of a pair fills both layouts and gives the data of the
/// publication with listed keys.
fn assert_checked_pair_matches_listed<D: Scalar>(
    rule: Rule,
    hom: &Hom,
    matrices: &[SectorMatricization<D>],
    pairs: &dyn Fn() -> Vec<FactorPair<D>>,
    canonical: bool,
) {
    let (left_layout, right_layout) = pair_layouts(rule, hom, &pairs());
    let (plain_left, plain_right) = publish_pair(rule, hom, matrices, pairs()).unwrap();
    let (left, right) = publish_pair_checked(rule, hom, matrices, pairs()).unwrap();
    assert_eq!(pair_is_canonical(rule, hom, matrices, &pairs()), canonical);
    assert_eq!(left.len(), left_layout.required_len());
    assert_eq!(right.len(), right_layout.required_len());
    assert_eq!(left, plain_left);
    assert_eq!(right, plain_right);
}

fn checked_pair_structure_case<D: Scalar>(values: impl Fn(usize) -> D) {
    let fresh = || two_leg_geometry::<D>(Rule::Cyclic(4), z4_all_charge_legs());
    let (hom, matrices) = fresh();
    let (_, mut reversed) = fresh();
    reversed.reverse();
    for (matrices, canonical) in [(&matrices, true), (&reversed, false)] {
        assert_checked_pair_matches_listed(
            Rule::Cyclic(4),
            &hom,
            matrices,
            &|| staged_pairs(matrices, &values),
            canonical,
        );
    }
}

#[test]
fn checked_paired_structure_matches_two_enumeration_construction() {
    checked_pair_structure_case(|k| k as f64 + 0.125);
    checked_pair_structure_case(|k| Complex64::new(k as f64 + 0.125, 0.75 - k as f64));
}

#[test]
fn checked_pair_matches_listed_publication_for_vertex_trees() {
    for reverse in [false, true] {
        let (hom, matrix, _) = vertex_tree_factor_fixture(reverse);
        assert_checked_pair_matches_listed(
            Rule::Generic,
            &hom,
            &[matrix],
            &|| vec![vertex_tree_factor_fixture(reverse).2],
            !reverse,
        );
    }
}

/// The questions that the layout of a hom space asks of its rule: the channels
/// of every fusion, and the multiplicity of each of them.
fn layout_queries(rule: Rule, hom: &Hom) -> usize {
    let mut count = 0;
    for legs in [&hom.codomain, &hom.domain] {
        for length in 2..=legs.len() {
            for (before, _) in trees_of(rule, &legs[..length - 1]) {
                for &(id, dimension) in &legs[length - 1] {
                    if dimension > 0 {
                        count += 1 + rule.channels(before.coupled.id(), id).len();
                    }
                }
            }
        }
    }
    count
}

/// The space of one factor, with the questions that its layout asks counted.
fn counted_space(
    rule: Rule,
    hom: &Hom,
    leg: &SectorLeg,
    side: FactorSide,
    queries: &Cell<usize>,
) -> MapSpace {
    let bond = leg
        .sectors
        .iter()
        .map(|rank| (rank.sector.id(), rank.kept))
        .collect::<Leg>();
    let output = hom.factor(bond, side);
    queries.set(queries.get() + layout_queries(rule, &output));
    let product = |legs: &[Leg]| FusionProductSpace {
        legs: legs
            .iter()
            .map(|leg| {
                SectorLeg::new(
                    leg.iter()
                        .map(|&(id, kept)| SectorRank {
                            sector: sector(id),
                            kept,
                        })
                        .collect(),
                )
            })
            .collect(),
    };
    MapSpace {
        rule_identity: Some(1),
        provider: 7,
        nout: output.codomain.len(),
        nin: output.domain.len(),
        rank: output.codomain.len() + output.domain.len(),
        structure: layout(rule, &output),
        regions: None,
        homspace: FusionTreeHomSpace {
            codomain: product(&output.codomain),
            domain: product(&output.domain),
        },
    }
}

#[test]
fn checked_paired_placement_error_precedes_bound_space() {
    // A factor key whose tree the source lacks fails after that side's single
    // layout and before any publication; the left side is checked completely
    // before the right side is laid out.
    for side in [FactorSide::Left, FactorSide::Right] {
        let (hom, mut matrix, pair) = vertex_tree_factor_fixture(false);
        match side {
            FactorSide::Left => matrix.row_trees.truncate(1),
            FactorSide::Right => matrix.col_trees.truncate(1),
        }
        let queries = Cell::new(0);
        let laid_out = |leg: &SectorLeg, side: FactorSide| -> Result<MapSpace, &'static str> {
            Ok(counted_space(Rule::Generic, &hom, leg, side, &queries))
        };
        let error = publish_labelled_pair(
            &[matrix],
            vec![pair],
            &|leg: &SectorLeg| laid_out(leg, FactorSide::Left),
            &|leg: &SectorLeg| laid_out(leg, FactorSide::Right),
            Complex64::zero(),
        )
        .unwrap_err();
        let (expected_message, expected_calls) = match side {
            FactorSide::Left => (
                "factor codomain tree absent from the source matricization",
                3,
            ),
            FactorSide::Right => ("factor domain tree absent from the source matricization", 6),
        };
        assert_eq!(error, DriveError::Operation(scope(expected_message)));
        assert_eq!(queries.get(), expected_calls);
    }
}

#[test]
fn a_refused_left_label_precedes_a_missing_right_layout() {
    let (hom, mut matrix, pair) = vertex_tree_factor_fixture(false);
    matrix.row_trees.truncate(1);
    let queries = Cell::new(0);
    let error = publish_labelled_pair(
        &[matrix],
        vec![pair],
        &|leg: &SectorLeg| -> Result<MapSpace, &'static str> {
            Ok(counted_space(Rule::Generic, &hom, leg, FactorSide::Left, &queries))
        },
        &|_: &SectorLeg| Err("no layout"),
        Complex64::zero(),
    )
    .unwrap_err();
    assert_eq!(
        error,
        DriveError::Operation(scope(
            "factor codomain tree absent from the source matricization"
        ))
    );
}

#[test]
fn sliced_bond_data_reads_the_leading_part_of_every_block() {
    let (hom, ..) = vertex_tree_factor_fixture(false);
    let full = layout(Rule::Generic, &hom);
    let data = (0..full.required_len())
        .map(|k| Complex64::new(k as f64, -0.5 * k as f64))
        .collect::<Vec<_>>();
    for (axis, kept) in [(0usize, 1usize), (3, 2)] {
        let mut sliced_hom = hom.clone();
        if axis < 2 {
            sliced_hom.codomain[axis] = vec![(1, kept)];
        } else {
            sliced_hom.domain[axis - 2] = vec![(1, kept)];
        }
        let sliced = layout(Rule::Generic, &sliced_hom);
        let part = sliced_bond_data(&full, &data, &sliced, Complex64::zero()).unwrap();
        assert_eq!(part.len(), sliced.required_len());
        assert!(part.len() < data.len());
        for index in 0..sliced.block_count() {
            let to = sliced.block(index);
            let from = full.block(full.find_block_index_by_key(to.key()).unwrap());
            for flat in 0..extent_of(to.shape()) {
                let mut remaining = flat;
                let mut target = to.offset();
                let mut source = from.offset();
                for (position, &dimension) in to.shape().iter().enumerate() {
                    let coordinate = remaining % dimension;
                    remaining /= dimension;
                    target += coordinate * to.strides()[position];
                    source += coordinate * from.strides()[position];
                }
                assert_eq!(part[target], data[source]);
            }
        }
    }
}
